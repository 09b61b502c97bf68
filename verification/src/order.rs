//! The order in which a map keyed by tile ids hands out its keys.

use vstd::prelude::*;
use vstd::std_specs::btree::increasing_seq;
use vstd::std_specs::cmp::OrdSpec;

verus! {

/// Each entry of `ids` is below every later one.
pub open spec fn ascending(ids: Seq<i32>) -> bool {
    forall|i: int, j: int| 0 <= i < j < ids.len() ==> ids[i] < ids[j]
}

/// Keys that come out of an ordered map in increasing order are ascending
/// integers.
pub proof fn lemma_increasing_is_ascending(ids: Seq<i32>)
    requires
        increasing_seq(ids),
    ensures
        ascending(ids),
{
    assert forall|i: int, j: int| 0 <= i < j < ids.len() implies ids[i] < ids[j] by {
        assert(ids[i].cmp_spec(&ids[j]) is Less);
    }
}

} // verus!
