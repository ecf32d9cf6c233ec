use vstd::prelude::*;
use vstd::set_lib::*;

verus! {

/// `p` lists every position of `0..n` exactly once.
pub open spec fn is_index_permutation(p: Seq<int>, n: int) -> bool {
    &&& p.len() == n
    &&& p.no_duplicates()
    &&& forall|i: int| 0 <= i < p.len() ==> 0 <= #[trigger] p[i] < n
}

/// The entries of `items` picked out, in order, by the positions in `p`.
pub open spec fn pick(items: Seq<usize>, p: Seq<int>) -> Seq<usize> {
    p.map_values(|q: int| items[q])
}

/// A duplicate-free sequence of positions below `n` that reaches every
/// position below `n` has exactly `n` entries.
pub proof fn lemma_distinct_cover_is_permutation(p: Seq<int>, n: int)
    requires
        0 <= n,
        p.no_duplicates(),
        forall|i: int| 0 <= i < p.len() ==> 0 <= #[trigger] p[i] < n,
        forall|q: int| 0 <= q < n ==> #[trigger] p.contains(q),
    ensures
        is_index_permutation(p, n),
{
    p.unique_seq_to_set();
    assert(p.to_set() =~= set_int_range(0, n)) by {
        assert forall|q: int| #[trigger] p.to_set().contains(q) implies 0 <= q < n by {
            let i = p.index_of(q);
            assert(p[i] == q);
        }
    }
    lemma_int_range(0, n);
}

} // verus!
