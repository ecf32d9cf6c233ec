use vstd::prelude::*;

verus! {

/// Contents of a list of vectors.
pub open spec fn views(b: Seq<Vec<usize>>) -> Seq<Seq<usize>> {
    b.map_values(|v: Vec<usize>| v@)
}

/// Machine indices read as integers.
pub open spec fn as_ints(o: Seq<usize>) -> Seq<int> {
    o.map_values(|x: usize| x as int)
}

/// Items `0..upto` whose owner is `k`, in increasing order.
pub open spec fn owned_by(owners: Seq<int>, k: int, upto: int) -> Seq<usize>
    decreases upto,
{
    if upto <= 0 {
        Seq::empty()
    } else if owners[upto - 1] == k {
        owned_by(owners, k, upto - 1).push((upto - 1) as usize)
    } else {
        owned_by(owners, k, upto - 1)
    }
}

/// Number of items `0..upto` owned by `k`.
pub open spec fn owned_count(owners: Seq<int>, k: int, upto: int) -> int {
    owned_by(owners, k, upto).len() as int
}

/// `buckets[k]` lists, in increasing order, exactly the items owned by `k`.
pub open spec fn buckets_match_owners(buckets: Seq<Seq<usize>>, owners: Seq<int>, m: int) -> bool {
    &&& buckets.len() == m
    &&& forall|k: int| 0 <= k < m ==> #[trigger] buckets[k] == owned_by(owners, k, owners.len() as int)
}

/// Item `i` appears in some bucket.
pub open spec fn in_some_bucket(buckets: Seq<Seq<usize>>, i: usize) -> bool {
    exists|k: int| 0 <= k < buckets.len() && #[trigger] buckets[k].contains(i)
}

/// `buckets` splits `0..n` into increasing lists: every item lies in exactly one bucket.
pub open spec fn is_partition(buckets: Seq<Seq<usize>>, n: int) -> bool {
    &&& forall|k: int, a: int, b: int|
        0 <= k < buckets.len() && 0 <= a < b < buckets[k].len() ==> #[trigger] buckets[k][a]
            < #[trigger] buckets[k][b]
    &&& forall|k: int, a: int|
        0 <= k < buckets.len() && 0 <= a < buckets[k].len() ==> #[trigger] buckets[k][a] < n
    &&& forall|i: usize| i < n ==> #[trigger] in_some_bucket(buckets, i)
    &&& forall|i: usize, k1: int, k2: int|
        0 <= k1 < buckets.len() && 0 <= k2 < buckets.len() && #[trigger] buckets[k1].contains(i)
            && #[trigger] buckets[k2].contains(i) ==> k1 == k2
}

/// Membership in `owned_by` is exactly ownership, and the list is increasing.
pub proof fn lemma_owned_by_facts(owners: Seq<int>, k: int, upto: int)
    requires
        0 <= upto <= owners.len(),
        upto <= usize::MAX + 1,
    ensures
        forall|a: int, b: int|
            0 <= a < b < owned_by(owners, k, upto).len() ==> #[trigger] owned_by(owners, k, upto)[a]
                < #[trigger] owned_by(owners, k, upto)[b],
        forall|a: int|
            0 <= a < owned_by(owners, k, upto).len() ==> #[trigger] owned_by(owners, k, upto)[a]
                < upto,
        forall|i: int|
            0 <= i < upto ==> (#[trigger] owned_by(owners, k, upto).contains(i as usize) <==> owners[i]
                == k),
    decreases upto,
{
    if upto > 0 {
        lemma_owned_by_facts(owners, k, upto - 1);
        let prev = owned_by(owners, k, upto - 1);
        let cur = owned_by(owners, k, upto);
        assert forall|i: int| 0 <= i < upto implies (#[trigger] cur.contains(i as usize) <==> owners[i]
            == k) by {
            if i < upto - 1 {
                if owners[upto - 1] == k {
                    assert(cur == prev.push((upto - 1) as usize));
                    if cur.contains(i as usize) {
                        let a = choose|a: int| 0 <= a < cur.len() && cur[a] == i as usize;
                        if a < prev.len() {
                            assert(prev[a] == i as usize);
                            assert(prev.contains(i as usize));
                        }
                    }
                    if prev.contains(i as usize) {
                        let a = choose|a: int| 0 <= a < prev.len() && prev[a] == i as usize;
                        assert(cur[a] == i as usize);
                    }
                }
            } else {
                if owners[upto - 1] == k {
                    assert(cur[cur.len() - 1] == i as usize);
                } else {
                    if prev.contains(i as usize) {
                        let a = choose|a: int| 0 <= a < prev.len() && prev[a] == i as usize;
                        assert(prev[a] < upto - 1);
                    }
                }
            }
        }
    }
}

/// Buckets built from any owner assignment into `0..m` partition the items.
pub proof fn lemma_owner_buckets_partition(buckets: Seq<Seq<usize>>, owners: Seq<int>, m: int)
    requires
        buckets_match_owners(buckets, owners, m),
        owners.len() <= usize::MAX + 1,
        forall|i: int| 0 <= i < owners.len() ==> 0 <= #[trigger] owners[i] < m,
    ensures
        is_partition(buckets, owners.len() as int),
        forall|i: int| 0 <= i < owners.len() ==> #[trigger] buckets[owners[i]].contains(i as usize),
{
    let n = owners.len() as int;
    assert forall|k: int| #![trigger buckets[k]] 0 <= k < m implies {
        &&& forall|a: int, b: int| 0 <= a < b < buckets[k].len() ==> #[trigger] buckets[k][a] < #[trigger] buckets[k][b]
        &&& forall|a: int| 0 <= a < buckets[k].len() ==> #[trigger] buckets[k][a] < n
        &&& forall|i: int| 0 <= i < n ==> (#[trigger] buckets[k].contains(i as usize) <==> owners[i] == k)
    } by {
        lemma_owned_by_facts(owners, k, n);
    }
    assert forall|i: int| 0 <= i < n implies #[trigger] buckets[owners[i]].contains(i as usize) by {
        let k = owners[i];
        assert(0 <= k < m);
    }
    assert forall|i: usize| i < n implies #[trigger] in_some_bucket(buckets, i) by {
        assert(buckets[owners[i as int]].contains((i as int) as usize));
    }
    assert forall|i: usize, k1: int, k2: int|
        0 <= k1 < buckets.len() && 0 <= k2 < buckets.len() && #[trigger] buckets[k1].contains(i)
            && #[trigger] buckets[k2].contains(i) implies k1 == k2 by {
        let a = choose|a: int| 0 <= a < buckets[k1].len() && buckets[k1][a] == i;
        assert(buckets[k1][a] < n);
        assert(buckets[k1].contains((i as int) as usize));
        assert(buckets[k2].contains((i as int) as usize));
    }
}

/// Group items `0..owners.len()` into `m` buckets by owner.
pub fn buckets_from_owners(owners: &Vec<usize>, m: usize) -> (buckets: Vec<Vec<usize>>)
    requires
        forall|i: int| 0 <= i < owners.len() ==> #[trigger] owners[i] < m,
    ensures
        buckets_match_owners(views(buckets@), as_ints(owners@), m as int),
{
    let ghost ow = as_ints(owners@);
    let mut buckets: Vec<Vec<usize>> = Vec::new();
    let mut k: usize = 0;
    while k < m
        invariant
            k <= m,
            buckets.len() == k,
            forall|j: int| 0 <= j < k ==> #[trigger] buckets[j]@ == owned_by(ow, j, 0),
        decreases m - k,
    {
        buckets.push(Vec::new());
        assert(buckets[k as int]@ =~= owned_by(ow, k as int, 0));
        k = k + 1;
    }
    let mut i: usize = 0;
    while i < owners.len()
        invariant
            ow == as_ints(owners@),
            forall|j: int| 0 <= j < owners.len() ==> #[trigger] owners[j] < m,
            i <= owners.len(),
            buckets.len() == m,
            forall|j: int| 0 <= j < m ==> #[trigger] buckets[j]@ == owned_by(ow, j, i as int),
        decreases owners.len() - i,
    {
        let o = owners[i];
        let ghost before = buckets@;
        let mut bucket = Vec::new();
        std::mem::swap(&mut bucket, &mut buckets[o]);
        bucket.push(i);
        buckets.set(o, bucket);
        assert forall|j: int| 0 <= j < m implies #[trigger] buckets[j]@ == owned_by(ow, j, i + 1) by {
            assert(ow[i as int] == o as int);
            if j != o as int {
                assert(buckets[j] == before[j]);
            }
        }
        i = i + 1;
    }
    assert(views(buckets@).len() == m);
    assert forall|j: int| 0 <= j < m implies #[trigger] views(buckets@)[j] == owned_by(ow, j, ow.len() as int) by {}
    buckets
}

} // verus!
