use vstd::prelude::*;
use vstd::seq_lib::*;
use vstd::set_lib::*;

verus! {

// One counting fact used in two places: a run of pairwise-distinct integers
// drawn from a half-open range can be no longer than the range.

/// A sequence of pairwise-distinct integers in `[lo, hi)` has at most
/// `hi - lo` entries.
pub proof fn lemma_distinct_in_range(s: Seq<int>, lo: int, hi: int)
    requires
        lo <= hi,
        s.no_duplicates(),
        forall|i: int| 0 <= i < s.len() ==> lo <= #[trigger] s[i] < hi,
    ensures
        s.len() <= hi - lo,
{
    s.unique_seq_to_set();
    assert(s.to_set().subset_of(set_int_range(lo, hi))) by {
        assert forall|x: int| s.to_set().contains(x) implies set_int_range(lo, hi).contains(x) by {
            let i = choose|i: int| 0 <= i < s.len() && s[i] == x;
            assert(lo <= s[i] < hi);
        }
    }
    lemma_int_range(lo, hi);
    lemma_len_subset(s.to_set(), set_int_range(lo, hi));
}

} // verus!
