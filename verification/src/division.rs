use vstd::prelude::*;

use crate::error::MaptraxError;
use crate::assign::{
    as_ints, buckets_from_owners, buckets_match_owners, in_some_bucket, is_partition, lemma_owned_by_facts,
    lemma_owner_buckets_partition, owned_by, owned_count, views,
};

verus! {

/// What the per-machine share is measured in.
#[derive(Debug, Clone, Copy, PartialEq, Eq, Structural)]
pub enum Balance {
    /// Weighted-equal swath count.
    ByCount,
    /// Weighted-equal total segment length.
    ByLength,
}

/// How headland rings are distributed across machines.
#[derive(Debug, Clone, Copy, PartialEq, Eq, Structural)]
pub enum HeadlandMode {
    /// Ring `r` goes to machine `r mod machine_count`.
    OnePerMachine,
    /// Every ring goes to one machine (clamped to the last machine).
    Dedicated { machine: usize },
    /// Each ring is cut into arcs by the machines' lateral zones.
    SplitByZone,
    /// No headland work is assigned; it is handled elsewhere.
    Unassigned,
}

impl Default for HeadlandMode {
    fn default() -> (m: Self)
        ensures
            m == HeadlandMode::OnePerMachine,
    {
        HeadlandMode::OnePerMachine
    }
}

/// Stateless multi-machine division planner.
pub struct Divy;

/// Size of slice `i` when `total` items are cut into `slices` near-equal
/// contiguous slices: the first `total % slices` slices get one extra item.
pub open spec fn slice_size(total: int, slices: int, i: int) -> int {
    total / slices + if i < total % slices { 1int } else { 0int }
}

/// First row of slice `i`.
pub open spec fn slice_start(total: int, slices: int, i: int) -> int {
    i * (total / slices) + if i < total % slices { i } else { total % slices }
}

/// The slices `equal_count_slices` produces.
pub open spec fn slice_bounds(total: int, slices: int) -> Seq<(usize, usize)> {
    if slices <= 0 || total <= 0 {
        seq![(0usize, total as usize)]
    } else {
        Seq::new(
            slices as nat,
            |i: int| (slice_start(total, slices, i) as usize, (slice_start(total, slices, i) + slice_size(total, slices, i)) as usize),
        )
    }
}

/// Cut `0..total` into `slices` contiguous half-open ranges whose sizes differ
/// by at most one, larger ones first. With no slices or nothing to cut the
/// whole range is returned as a single slice.
#[verifier::spinoff_prover]
#[verifier::rlimit(40)]
pub fn equal_count_slices(total: usize, slices: usize) -> (out: Vec<(usize, usize)>)
    ensures
        out@ == slice_bounds(total as int, slices as int),
        forall|i: int| 0 <= i < out.len() ==> #[trigger] out[i].0 <= out[i].1 <= total,
        slices == 0 || total == 0 ==> out@ == seq![(0usize, total)],
        slices > 0 && total > 0 ==> {
            &&& out.len() == slices
            &&& out[0].0 == 0
            &&& out[slices - 1].1 == total
            &&& forall|i: int| 0 <= i < slices ==> #[trigger] out[i].1 - out[i].0 == slice_size(total as int, slices as int, i)
            &&& forall|i: int| 0 <= i < slices - 1 ==> #[trigger] out[i].1 == out[i + 1].0
        },
{
    if slices == 0 || total == 0 {
        return vec![(0, total)];
    }
    let base = total / slices;
    let rem = total % slices;
    proof {
        vstd::arithmetic::div_mod::lemma_fundamental_div_mod(total as int, slices as int);
    }
    let mut bounds: Vec<(usize, usize)> = Vec::new();
    let mut cursor: usize = 0;
    let mut i: usize = 0;
    while i < slices
        invariant
            0 < slices,
            0 < total,
            base == total / slices,
            rem == total % slices,
            total == slices * base + rem,
            rem < slices,
            i <= slices,
            bounds.len() == i,
            cursor == i * base + if i < rem { i as int } else { rem as int },
            i > 0 ==> bounds[i - 1].1 == cursor,
            i == 0 ==> cursor == 0,
            i > 0 ==> bounds[0].0 == 0,
            forall|j: int| 0 <= j < i ==> #[trigger] bounds[j].1 - bounds[j].0 == slice_size(total as int, slices as int, j),
            forall|j: int| 0 <= j < i - 1 ==> #[trigger] bounds[j].1 == bounds[j + 1].0,
            forall|j: int| 0 <= j < i ==> #[trigger] bounds[j] == slice_bounds(total as int, slices as int)[j],
            forall|j: int| 0 <= j < i ==> #[trigger] bounds[j].0 <= bounds[j].1 <= total,
        decreases slices - i,
    {
        assert(i < rem ==> base < total) by (nonlinear_arith)
            requires
                total == slices * base + rem,
                slices >= 1,
                base >= 0,
                rem >= 0,
        ;
        let count = base + if i < rem { 1 } else { 0 };
        assert(cursor + count == (i + 1) * base + if i + 1 < rem { (i + 1) as int } else { rem as int }) by (nonlinear_arith)
            requires
                cursor == i * base + if i < rem { i as int } else { rem as int },
                count == base + if i < rem { 1int } else { 0int },
        ;
        assert((i + 1) * base + if i + 1 < rem { (i + 1) as int } else { rem as int } <= slices * base + rem) by (nonlinear_arith)
            requires
                i + 1 <= slices,
                base >= 0,
        ;
        bounds.push((cursor, cursor + count));
        assert(slice_start(total as int, slices as int, i as int) == cursor);
        assert(slice_size(total as int, slices as int, i as int) == count);
        assert(bounds[i as int] == slice_bounds(total as int, slices as int)[i as int]);
        cursor = cursor + count;
        i = i + 1;
    }
    assert(cursor == total);
    assert(bounds@ =~= slice_bounds(total as int, slices as int));
    bounds
}

/// Total of a sequence of counts.
pub open spec fn seq_sum(s: Seq<usize>) -> int
    decreases s.len(),
{
    if s.len() == 0 {
        0
    } else {
        seq_sum(s.drop_last()) + s.last()
    }
}

/// How many of the first `steps` round-robin picks over `order` land on `k`.
pub open spec fn picks_of(order: Seq<usize>, steps: int, k: int) -> int
    decreases steps,
{
    if steps <= 0 || order.len() == 0 {
        0
    } else {
        picks_of(order, steps - 1, k) + if order[(steps - 1) % (order.len() as int)] == k {
            1int
        } else {
            0int
        }
    }
}

/// Number of extra items handed out by `distribute_remainder`.
pub open spec fn remainder_steps(floors: Seq<usize>, order: Seq<usize>, total: int) -> int {
    if order.len() > 0 && seq_sum(floors) < total {
        total - seq_sum(floors)
    } else {
        0
    }
}

/// Raising one entry by one raises the total by one.
proof fn lemma_seq_sum_update(s: Seq<usize>, i: int, v: usize)
    requires
        0 <= i < s.len(),
    ensures
        seq_sum(s.update(i, v)) == seq_sum(s) - s[i] + v,
    decreases s.len(),
{
    let t = s.update(i, v);
    if i == s.len() - 1 {
        assert(t.drop_last() =~= s.drop_last());
    } else {
        lemma_seq_sum_update(s.drop_last(), i, v);
        assert(t.drop_last() =~= s.drop_last().update(i, v));
    }
}

/// The sum of a prefix grows by the next element.
proof fn lemma_seq_sum_take(s: Seq<usize>, j: int)
    requires
        0 <= j < s.len(),
    ensures
        seq_sum(s.take(j + 1)) == seq_sum(s.take(j)) + s[j],
{
    assert(s.take(j + 1).drop_last() =~= s.take(j));
}

/// Hand out the items that flooring left over: walking `order` round-robin,
/// each visited machine gets one more, until the quotas sum to `total`.
/// `order` lists machines by decreasing fractional share.
pub fn distribute_remainder(floors: Vec<usize>, order: &Vec<usize>, total: usize) -> (quotas: Vec<usize>)
    requires
        forall|j: int| 0 <= j < order.len() ==> #[trigger] order[j] < floors.len(),
    ensures
        quotas.len() == floors.len(),
        forall|k: int| 0 <= k < quotas.len() ==> #[trigger] quotas[k] == floors[k] + picks_of(
            order@,
            remainder_steps(floors@, order@, total as int),
            k,
        ),
        seq_sum(floors@) <= total && order.len() > 0 ==> seq_sum(quotas@) == total,
        seq_sum(floors@) >= total || order.len() == 0 ==> quotas@ == floors@,
{
    let mut assigned: usize = 0;
    let mut i: usize = 0;
    let m = floors.len();
    while i < m && assigned < total
        invariant
            m == floors.len(),
            i <= m,
            assigned == if seq_sum(floors@.take(i as int)) < total { seq_sum(floors@.take(i as int)) } else { total as int },
        decreases m - i,
    {
        proof {
            lemma_seq_sum_take(floors@, i as int);
        }
        if floors[i] >= total - assigned {
            assigned = total;
        } else {
            assigned = assigned + floors[i];
        }
        i = i + 1;
    }
    proof {
        assert(floors@.take(m as int) =~= floors@);
        if i < m {
            assert forall|j: int| i <= j <= m implies seq_sum(floors@.take(j)) >= total by {
                lemma_seq_sum_prefix_monotone(floors@, i as int, j);
            }
        }
    }
    let ghost steps = remainder_steps(floors@, order@, total as int);
    proof {
        lemma_seq_sum_nonneg(floors@);
    }
    let mut quotas = floors;
    if order.len() == 0 {
        return quotas;
    }
    let len = order.len();
    let mut idx: usize = 0;
    while assigned < total
        invariant
            quotas.len() == m,
            floors@.len() == m,
            len == order.len(),
            len > 0,
            forall|j: int| 0 <= j < order.len() ==> #[trigger] order[j] < m,
            steps == remainder_steps(floors@, order@, total as int),
            idx <= steps,
            steps <= total,
            assigned <= total,
            seq_sum(floors@) < total ==> assigned == seq_sum(floors@) + idx && steps == total - seq_sum(floors@),
            seq_sum(floors@) >= total ==> assigned == total && steps == 0,
            forall|k: int| 0 <= k < m ==> #[trigger] quotas[k] == floors[k] + picks_of(order@, idx as int, k),
            seq_sum(quotas@) == seq_sum(floors@) + idx,
        decreases total - assigned,
    {
        let machine = order[idx % len];
        assert(idx < steps);
        proof {
            lemma_seq_sum_ge_elem(quotas@, machine as int);
            assert forall|k: int| 0 <= k < m implies picks_of(order@, idx + 1, k) == picks_of(order@, idx as int, k) + if order[(idx as int) % (len as int)] == k { 1int } else { 0int } by {}
            lemma_seq_sum_update(quotas@, machine as int, (quotas[machine as int] + 1) as usize);
        }
        assert(quotas[machine as int] == floors[machine as int] + picks_of(order@, idx as int, machine as int));
        quotas.set(machine, quotas[machine] + 1);
        assigned = assigned + 1;
        idx = idx + 1;
    }
    proof {
        assert(idx == steps);
        if seq_sum(floors@) >= total {
            assert(quotas@ =~= floors@);
        }
    }
    quotas
}

/// No entry exceeds the total.
proof fn lemma_seq_sum_ge_elem(s: Seq<usize>, i: int)
    requires
        0 <= i < s.len(),
    ensures
        s[i] <= seq_sum(s),
    decreases s.len(),
{
    lemma_seq_sum_nonneg(s.drop_last());
    if i < s.len() - 1 {
        lemma_seq_sum_ge_elem(s.drop_last(), i);
    }
}

/// Totals of counts are non-negative.
proof fn lemma_seq_sum_nonneg(s: Seq<usize>)
    ensures
        seq_sum(s) >= 0,
    decreases s.len(),
{
    if s.len() > 0 {
        lemma_seq_sum_nonneg(s.drop_last());
    }
}

/// Prefix sums never shrink.
proof fn lemma_seq_sum_prefix_monotone(s: Seq<usize>, i: int, j: int)
    requires
        0 <= i <= j <= s.len(),
    ensures
        seq_sum(s.take(i)) <= seq_sum(s.take(j)),
    decreases j - i,
{
    if i < j {
        lemma_seq_sum_prefix_monotone(s, i, j - 1);
        lemma_seq_sum_take(s, j - 1);
    }
}

/// `c + 1`, saturating at `usize::MAX`.
pub open spec fn sat_inc(c: int) -> int {
    if c < usize::MAX { c + 1 } else { c }
}

/// Cursor and stride budget after stepping past machines whose quota is
/// already met, trying at most `quotas.len() - attempts` more machines; every
/// step resets the stride budget.
pub open spec fn skip_full(quotas: Seq<usize>, stride: int, taken: Seq<usize>, cursor: int, left: int, attempts: int) -> (int, int)
    decreases quotas.len() - attempts,
{
    let m = quotas.len() as int;
    if attempts < m && taken[cursor % m] >= quotas[cursor % m] {
        skip_full(quotas, stride, taken, sat_inc(cursor), stride, attempts + 1)
    } else {
        (cursor, left)
    }
}

/// Starting from a fresh budget, skipping keeps the budget fresh.
proof fn lemma_skip_from_fresh_budget(quotas: Seq<usize>, stride: int, taken: Seq<usize>, cursor: int, attempts: int)
    ensures
        skip_full(quotas, stride, taken, cursor, stride, attempts).1 == stride,
    decreases quotas.len() - attempts,
{
    let m = quotas.len() as int;
    if attempts < m && taken[cursor % m] >= quotas[cursor % m] {
        lemma_skip_from_fresh_budget(quotas, stride, taken, sat_inc(cursor), attempts + 1);
    }
}

/// Moving the cursor past a machine whose quota is met hands the next machine
/// a fresh budget of `stride` rows, whatever budget was left; when the
/// machine under the cursor still has quota, cursor and budget stay as they
/// were.
pub proof fn lemma_skip_gives_fresh_budget(quotas: Seq<usize>, stride: int, taken: Seq<usize>, cursor: int, left: int, attempts: int)
    requires
        0 <= cursor,
        taken.len() == quotas.len(),
    ensures
        attempts < quotas.len() && taken[cursor % (quotas.len() as int)] >= quotas[cursor % (quotas.len() as int)]
            ==> skip_full(quotas, stride, taken, cursor, left, attempts).1 == stride,
        !(attempts < quotas.len() && taken[cursor % (quotas.len() as int)] >= quotas[cursor % (quotas.len() as int)])
            ==> skip_full(quotas, stride, taken, cursor, left, attempts) == (cursor, left),
{
    let m = quotas.len() as int;
    if attempts < m && taken[cursor % m] >= quotas[cursor % m] {
        lemma_skip_from_fresh_budget(quotas, stride, taken, sat_inc(cursor), attempts + 1);
    }
}

/// Striping state after placing the first `i` rows: rows taken per machine,
/// cursor, remaining stride budget, and the owner of each placed row.
pub open spec fn stripe_run(quotas: Seq<usize>, stride: int, i: int) -> (Seq<usize>, int, int, Seq<int>)
    decreases i,
{
    let m = quotas.len() as int;
    if i <= 0 {
        (Seq::new(m as nat, |k: int| 0usize), 0, stride, Seq::empty())
    } else {
        let prev = stripe_run(quotas, stride, i - 1);
        let (c, l) = skip_full(quotas, stride, prev.0, prev.1, prev.2, 0);
        let machine = c % m;
        let taken = prev.0.update(machine, (prev.0[machine] + 1) as usize);
        let l2 = if l > 0 { l - 1 } else { 0 };
        if l2 == 0 {
            (taken, sat_inc(c), stride, prev.3.push(machine))
        } else {
            (taken, c, l2, prev.3.push(machine))
        }
    }
}

/// Skipping never moves the cursor back.
proof fn lemma_skip_cursor_nonneg(quotas: Seq<usize>, stride: int, taken: Seq<usize>, cursor: int, left: int, attempts: int)
    requires
        0 <= cursor,
    ensures
        0 <= skip_full(quotas, stride, taken, cursor, left, attempts).0,
    decreases quotas.len() - attempts,
{
    let m = quotas.len() as int;
    if attempts < m && taken[cursor % m] >= quotas[cursor % m] {
        lemma_skip_cursor_nonneg(quotas, stride, taken, sat_inc(cursor), stride, attempts + 1);
    }
}

/// The striping state keeps one count per machine and a cursor that is not negative.
proof fn lemma_stripe_run_shape(quotas: Seq<usize>, stride: int, i: int)
    requires
        0 < quotas.len(),
    ensures
        stripe_run(quotas, stride, i).0.len() == quotas.len(),
        0 <= stripe_run(quotas, stride, i).1,
    decreases i,
{
    if i > 0 {
        lemma_stripe_run_shape(quotas, stride, i - 1);
        let prev = stripe_run(quotas, stride, i - 1);
        lemma_skip_cursor_nonneg(quotas, stride, prev.0, prev.1, prev.2, 0);
        let c = skip_full(quotas, stride, prev.0, prev.1, prev.2, 0).0;
        vstd::arithmetic::div_mod::lemma_mod_bound(c, quotas.len() as int);
    }
}

/// A row placed right after the cursor skipped a machine whose quota was met
/// opens a fresh run: its machine may take `stride - 1` more rows before the
/// cursor moves on.
pub proof fn lemma_row_after_skip_opens_fresh_run(quotas: Seq<usize>, stride: int, i: int)
    requires
        0 < quotas.len(),
        0 <= i,
        2 <= stride,
        ({
            let prev = stripe_run(quotas, stride, i);
            prev.0[prev.1 % (quotas.len() as int)] >= quotas[prev.1 % (quotas.len() as int)]
        }),
    ensures
        stripe_run(quotas, stride, i + 1).2 == stride - 1,
{
    lemma_stripe_run_shape(quotas, stride, i);
    let prev = stripe_run(quotas, stride, i);
    lemma_skip_gives_fresh_budget(quotas, stride, prev.0, prev.1, prev.2, 0);
}

/// Owner of each of the `n` rows under quota-limited striping.
pub open spec fn stripe_owners(quotas: Seq<usize>, stride: int, n: int) -> Seq<int> {
    stripe_run(quotas, stride, n).3
}

/// `owned_by` only looks at the first `upto` owners.
proof fn lemma_owned_by_prefix(owners: Seq<int>, x: int, k: int, upto: int)
    requires
        0 <= upto <= owners.len(),
    ensures
        owned_by(owners.push(x), k, upto) == owned_by(owners, k, upto),
    decreases upto,
{
    if upto > 0 {
        lemma_owned_by_prefix(owners, x, k, upto - 1);
    }
}

/// Among `m` consecutive cursor values every machine index occurs.
proof fn lemma_consecutive_residues(c0: int, m: int, k: int) -> (j: int)
    requires
        0 < m,
        0 <= c0,
        0 <= k < m,
    ensures
        0 <= j < m,
        (c0 + j) % m == k,
{
    vstd::arithmetic::div_mod::lemma_fundamental_div_mod(c0, m);
    vstd::arithmetic::div_mod::lemma_mod_bound(c0, m);
    let q = c0 / m;
    let r = c0 % m;
    if k >= r {
        let j = k - r;
        assert(c0 + j == q * m + k) by (nonlinear_arith)
            requires
                c0 == m * q + r,
                j == k - r,
        ;
        vstd::arithmetic::div_mod::lemma_fundamental_div_mod_converse(c0 + j, m, q, k);
        j
    } else {
        let j = k - r + m;
        assert(c0 + j == (q + 1) * m + k) by (nonlinear_arith)
            requires
                c0 == m * q + r,
                j == k - r + m,
        ;
        vstd::arithmetic::div_mod::lemma_fundamental_div_mod_converse(c0 + j, m, q + 1, k);
        j
    }
}

/// Pointwise at-least gives an at-least total.
proof fn lemma_seq_sum_pointwise_ge(a: Seq<usize>, b: Seq<usize>)
    requires
        a.len() == b.len(),
        forall|k: int| 0 <= k < a.len() ==> #[trigger] a[k] >= b[k],
    ensures
        seq_sum(a) >= seq_sum(b),
    decreases a.len(),
{
    if a.len() > 0 {
        lemma_seq_sum_pointwise_ge(a.drop_last(), b.drop_last());
    }
}

/// Pointwise at-most with equal totals forces equality.
proof fn lemma_seq_sum_pointwise_eq(a: Seq<usize>, b: Seq<usize>)
    requires
        a.len() == b.len(),
        forall|k: int| 0 <= k < a.len() ==> #[trigger] a[k] <= b[k],
        seq_sum(a) == seq_sum(b),
    ensures
        forall|k: int| 0 <= k < a.len() ==> #[trigger] a[k] == b[k],
    decreases a.len(),
{
    if a.len() > 0 {
        lemma_seq_sum_pointwise_ge(b.drop_last(), a.drop_last());
        lemma_seq_sum_pointwise_eq(a.drop_last(), b.drop_last());
        assert forall|k: int| 0 <= k < a.len() implies #[trigger] a[k] == b[k] by {
            if k < a.len() - 1 {
                assert(a.drop_last()[k] == a[k]);
                assert(b.drop_last()[k] == b[k]);
            }
        }
    }
}

/// Interleave `n` canonical rows across machines, `stride` consecutive rows
/// per machine before rotating, skipping machines whose quota is met. When
/// every machine is full the row goes to the machine under the cursor.
///
/// When the quotas cover all rows (and the cursor cannot saturate), no machine
/// exceeds its quota; when they sum to exactly `n`, every machine gets exactly
/// its quota.
pub fn stripe_with_quotas(n: usize, quotas: &Vec<usize>, stride: usize) -> (buckets: Vec<Vec<usize>>)
    requires
        quotas.len() > 0,
    ensures
        buckets_match_owners(views(buckets@), stripe_owners(quotas@, stride as int, n as int), quotas.len() as int),
        stripe_owners(quotas@, stride as int, n as int).len() == n,
        forall|i: int| 0 <= i < n ==> 0 <= #[trigger] stripe_owners(quotas@, stride as int, n as int)[i] < quotas.len(),
        seq_sum(quotas@) >= n && n * (quotas.len() + 1) < usize::MAX ==> forall|k: int|
            0 <= k < quotas.len() ==> #[trigger] buckets[k].len() <= quotas[k],
        seq_sum(quotas@) == n && n * (quotas.len() + 1) < usize::MAX ==> forall|k: int|
            0 <= k < quotas.len() ==> #[trigger] buckets[k].len() == quotas[k],
{
    let m = quotas.len();
    let ghost q = quotas@;
    let ghost st = stride as int;
    let ghost hyp = seq_sum(q) >= n && n * (m + 1) < usize::MAX;
    let mut taken: Vec<usize> = Vec::new();
    let mut k: usize = 0;
    while k < m
        invariant
            k <= m,
            taken@ == Seq::new(k as nat, |j: int| 0usize),
        decreases m - k,
    {
        taken.push(0);
        assert(taken@ =~= Seq::new((k + 1) as nat, |j: int| 0usize));
        k = k + 1;
    }
    proof {
        assert(seq_sum(taken@) == 0) by {
            lemma_seq_sum_zeros(taken@);
        }
    }
    let mut owners: Vec<usize> = Vec::new();
    let mut cursor: usize = 0;
    let mut stride_left: usize = stride;
    let mut i: usize = 0;
    while i < n
        invariant
            m == quotas.len(),
            q == quotas@,
            st == stride,
            0 < m,
            i <= n,
            hyp == (seq_sum(q) >= n && n * (m + 1) < usize::MAX),
            stripe_run(q, st, i as int) == (taken@, cursor as int, stride_left as int, as_ints(owners@)),
            taken.len() == m,
            owners.len() == i,
            forall|j: int| 0 <= j < i ==> #[trigger] owners[j] < m,
            seq_sum(taken@) == i,
            forall|j: int| 0 <= j < m ==> #[trigger] taken[j] == owned_count(as_ints(owners@), j, i as int),
            cursor <= i * (m + 1),
            hyp ==> forall|j: int| 0 <= j < m ==> #[trigger] taken[j] <= q[j],
        decreases n - i,
    {
        let ghost c0 = cursor as int;
        let ghost l0 = stride_left as int;
        proof {
            if hyp {
                assert(c0 + m < usize::MAX) by (nonlinear_arith)
                    requires
                        c0 <= i * (m + 1),
                        i < n,
                        n * (m + 1) < usize::MAX,
                        m > 0,
                ;
            }
        }
        let mut attempts: usize = 0;
        while attempts < m && taken[cursor % m] >= quotas[cursor % m]
            invariant
                m == quotas.len(),
                q == quotas@,
                st == stride,
                taken.len() == m,
                0 < m,
                attempts <= m,
                skip_full(q, st, taken@, c0, l0, 0) == skip_full(q, st, taken@, cursor as int, stride_left as int, attempts as int),
                cursor <= c0 + attempts,
                hyp ==> cursor == c0 + attempts,
                hyp ==> c0 + m < usize::MAX,
                hyp ==> forall|j: int| 0 <= j < attempts ==> #[trigger] taken[(c0 + j) % (m as int)] >= q[(c0 + j) % (m as int)],
            decreases m - attempts,
        {
            cursor = if cursor < usize::MAX { cursor + 1 } else { cursor };
            stride_left = stride;
            attempts = attempts + 1;
        }
        proof {
            if hyp {
                if attempts == m {
                    assert forall|k: int| 0 <= k < m implies #[trigger] taken[k] >= q[k] by {
                        let j = lemma_consecutive_residues(c0, m as int, k);
                        assert(taken[(c0 + j) % (m as int)] >= q[(c0 + j) % (m as int)]);
                    }
                    lemma_seq_sum_pointwise_ge(taken@, q);
                    assert(false);
                }
            }
        }
        let machine = cursor % m;
        proof {
            lemma_seq_sum_ge_elem(taken@, machine as int);
            lemma_seq_sum_update(taken@, machine as int, (taken[machine as int] + 1) as usize);
            lemma_owned_by_prefix(as_ints(owners@), machine as int, machine as int, i as int);
            assert forall|j: int| 0 <= j < m implies owned_by(as_ints(owners@).push(machine as int), j, i as int) == owned_by(as_ints(owners@), j, i as int) by {
                lemma_owned_by_prefix(as_ints(owners@), machine as int, j, i as int);
            }
        }
        let ghost old_owners = owners@;
        owners.push(machine);
        assert(as_ints(owners@) =~= as_ints(old_owners).push(machine as int));
        taken.set(machine, taken[machine] + 1);
        stride_left = if stride_left > 0 { stride_left - 1 } else { 0 };
        if stride_left == 0 {
            cursor = if cursor < usize::MAX { cursor + 1 } else { cursor };
            stride_left = stride;
        }
        proof {
            assert(cursor <= (i + 1) * (m + 1)) by (nonlinear_arith)
                requires
                    cursor <= c0 + m + 1,
                    c0 <= i * (m + 1),
            ;
        }
        i = i + 1;
    }
    proof {
        assert forall|j: int| 0 <= j < n implies 0 <= #[trigger] as_ints(owners@)[j] < m by {
            assert(owners[j] < m);
        }
    }
    let buckets = buckets_from_owners(&owners, m);
    proof {
        assert forall|k: int| 0 <= k < m implies #[trigger] buckets[k].len() == taken[k] by {
            assert(views(buckets@)[k] == owned_by(as_ints(owners@), k, n as int));
        }
        if seq_sum(q) == n && n * (m + 1) < usize::MAX {
            lemma_seq_sum_pointwise_eq(taken@, q);
        }
    }
    buckets
}

/// All-zero counts total zero.
proof fn lemma_seq_sum_zeros(s: Seq<usize>)
    requires
        forall|k: int| 0 <= k < s.len() ==> #[trigger] s[k] == 0,
    ensures
        seq_sum(s) == 0,
    decreases s.len(),
{
    if s.len() > 0 {
        lemma_seq_sum_zeros(s.drop_last());
    }
}

/// Rows `0..seq_sum(quotas.take(k))` are the block quotas of the first `k` machines.
pub open spec fn quota_prefix(quotas: Seq<usize>, k: int) -> int {
    seq_sum(quotas.take(k))
}

/// Machine that owns row `i` under block assignment, searching from machine
/// `k`: the first machine whose cumulative quota passes `i`, the last machine
/// taking everything beyond the quotas.
pub open spec fn block_owner_from(quotas: Seq<usize>, i: int, k: int) -> int
    decreases quotas.len() - k,
{
    if k >= quotas.len() - 1 {
        quotas.len() - 1
    } else if i < quota_prefix(quotas, k + 1) {
        k
    } else {
        block_owner_from(quotas, i, k + 1)
    }
}

/// Owner of each of the `n` rows under block assignment.
pub open spec fn block_owners(quotas: Seq<usize>, n: int) -> Seq<int> {
    Seq::new(n as nat, |i: int| block_owner_from(quotas, i, 0))
}

/// A row inside machine `k`'s block is owned by `k`.
proof fn lemma_block_owner(quotas: Seq<usize>, i: int, j: int, k: int)
    requires
        0 <= j <= k < quotas.len(),
        quota_prefix(quotas, k) <= i,
        k < quotas.len() - 1 ==> i < quota_prefix(quotas, k + 1),
    ensures
        block_owner_from(quotas, i, j) == k,
    decreases k - j,
{
    if j < k {
        lemma_seq_sum_prefix_monotone(quotas, j + 1, k);
        lemma_block_owner(quotas, i, j + 1, k);
    }
}

/// Contiguous blocks: machine 0 takes the first `quotas[0]` rows, machine 1
/// the next `quotas[1]`, and so on; rows left over when the quotas run out go
/// to the last machine.
///
/// Owners never decrease along the canonical order, and when the quotas sum
/// to `n` every machine gets exactly its quota.
pub fn block_by_count(n: usize, quotas: &Vec<usize>) -> (buckets: Vec<Vec<usize>>)
    requires
        quotas.len() > 0,
    ensures
        buckets_match_owners(views(buckets@), block_owners(quotas@, n as int), quotas.len() as int),
        forall|i: int| 0 <= i < n ==> 0 <= #[trigger] block_owners(quotas@, n as int)[i] < quotas.len(),
        forall|i: int, j: int|
            0 <= i <= j < n ==> #[trigger] block_owners(quotas@, n as int)[i] <= #[trigger] block_owners(quotas@, n as int)[j],
        seq_sum(quotas@) == n ==> forall|k: int| 0 <= k < quotas.len() ==> #[trigger] buckets[k].len() == quotas[k],
{
    let m = quotas.len();
    let ghost q = quotas@;
    let ghost exact = seq_sum(q) == n;
    let mut owners: Vec<usize> = Vec::new();
    let mut taken: Vec<usize> = Vec::new();
    let mut cursor: usize = 0;
    let mut k: usize = 0;
    proof {
        assert(q.take(0) =~= Seq::<usize>::empty());
    }
    while k < m
        invariant
            m == quotas.len(),
            q == quotas@,
            0 < m,
            k <= m,
            exact == (seq_sum(q) == n),
            cursor <= n,
            cursor == if quota_prefix(q, k as int) < n { quota_prefix(q, k as int) } else { n as int },
            owners.len() == cursor,
            forall|i: int| 0 <= i < cursor ==> #[trigger] owners[i] as int == block_owner_from(q, i, 0),
            forall|i: int| 0 <= i < cursor ==> #[trigger] owners[i] < k,
            forall|i: int, j: int| 0 <= i <= j < cursor ==> #[trigger] owners[i] <= #[trigger] owners[j],
            taken.len() == k,
            forall|j: int| 0 <= j < k ==> #[trigger] taken[j] == owned_count(as_ints(owners@), j, cursor as int),
            exact ==> forall|j: int| 0 <= j < k ==> #[trigger] taken[j] == q[j],
        decreases m - k,
    {
        let quota = quotas[k];
        let mut t: usize = 0;
        let ghost start = cursor as int;
        let ghost owners_start = owners@;
        proof {
            lemma_seq_sum_take(q, k as int);
        }
        while t < quota && cursor < n
            invariant
                m == quotas.len(),
                q == quotas@,
                0 < m,
                k < m,
                quota == q[k as int],
                quota_prefix(q, k + 1) == quota_prefix(q, k as int) + quota,
                cursor <= n,
                cursor == start + t,
                0 <= start,
                t <= quota,
                start == if quota_prefix(q, k as int) < n { quota_prefix(q, k as int) } else { n as int },
                owners.len() == cursor,
                forall|i: int| 0 <= i < cursor ==> #[trigger] owners[i] as int == block_owner_from(q, i, 0),
                forall|i: int| 0 <= i < start ==> #[trigger] owners[i] < k,
                forall|i: int| start <= i < cursor ==> #[trigger] owners[i] == k,
                forall|i: int, j: int| 0 <= i <= j < cursor ==> #[trigger] owners[i] <= #[trigger] owners[j],
            decreases quota - t,
        {
            proof {
                lemma_block_owner(q, cursor as int, 0, k as int);
            }
            let ghost old_owners = owners@;
            owners.push(k);
            assert(owners@ == old_owners.push(k));
            assert forall|i: int| start <= i < cursor + 1 implies #[trigger] owners[i] == k by {
                if i < cursor {
                    assert(owners@[i] == old_owners[i]);
                }
            }
            cursor = cursor + 1;
            t = t + 1;
        }
        proof {
            lemma_seq_sum_take(q, k as int);
            lemma_seq_sum_nonneg(q.take(k as int));
            lemma_seq_sum_prefix_monotone(q, k as int, k + 1);
            if exact {
                lemma_seq_sum_prefix_monotone(q, k + 1, m as int);
                assert(q.take(m as int) =~= q);
                assert(t == quota);
            }
            assert(cursor == if quota_prefix(q, k + 1) < n { quota_prefix(q, k + 1) } else { n as int });
            assert forall|j: int| 0 <= j < k implies owned_count(as_ints(owners@), j, cursor as int) == owned_count(as_ints(owners_start), j, start) by {
                lemma_owned_by_tail_other(as_ints(owners@), j, start, cursor as int);
                lemma_owned_by_agree(as_ints(owners@), as_ints(owners_start), j, start);
            }
            lemma_owned_by_run(as_ints(owners@), k as int, start, cursor as int);
        }
        taken.push(t);
        k = k + 1;
    }
    let last = m - 1;
    let ghost before_rest = cursor as int;
    let ghost owners_before = owners@;
    proof {
        if exact {
            assert(q.take(m as int) =~= q);
            assert(cursor == n);
        }
        if before_rest < n {
            assert(quota_prefix(q, m as int) == seq_sum(q)) by {
                assert(q.take(m as int) =~= q);
            }
        }
    }
    while cursor < n
        invariant
            m == quotas.len(),
            q == quotas@,
            0 < m,
            last == m - 1,
            cursor <= n,
            0 <= before_rest <= cursor,
            before_rest < n ==> before_rest == seq_sum(q),
            owners.len() == cursor,
            forall|i: int| 0 <= i < cursor ==> #[trigger] owners[i] as int == block_owner_from(q, i, 0),
            forall|i: int| 0 <= i < cursor ==> #[trigger] owners[i] < m,
            forall|i: int| before_rest <= i < cursor ==> #[trigger] owners[i] == last,
            forall|i: int, j: int| 0 <= i <= j < cursor ==> #[trigger] owners[i] <= #[trigger] owners[j],
        decreases n - cursor,
    {
        proof {
            assert(quota_prefix(q, last as int) <= cursor) by {
                lemma_seq_sum_prefix_monotone(q, last as int, m as int);
                assert(q.take(m as int) =~= q);
            }
            lemma_block_owner(q, cursor as int, 0, last as int);
        }
        let ghost old_owners = owners@;
        owners.push(last);
        assert(owners@ == old_owners.push(last));
        assert forall|i: int| before_rest <= i < cursor + 1 implies #[trigger] owners[i] == last by {
            if i < cursor {
                assert(owners@[i] == old_owners[i]);
            }
        }
        cursor = cursor + 1;
    }
    proof {
        assert(as_ints(owners@) =~= block_owners(q, n as int));
    }
    let buckets = buckets_from_owners(&owners, m);
    proof {
        assert forall|i: int| 0 <= i < n implies 0 <= #[trigger] block_owners(q, n as int)[i] < m by {
            assert(owners[i] < m);
        }
        if exact {
            assert(before_rest == n) by {
                assert(q.take(m as int) =~= q);
            }
            assert(owners@ == owners_before);
            assert forall|k: int| 0 <= k < m implies #[trigger] buckets[k].len() == q[k] by {
                assert(views(buckets@)[k] == owned_by(as_ints(owners@), k, n as int));
                assert(taken[k] == owned_count(as_ints(owners@), k, n as int));
            }
        }
    }
    buckets
}

/// `owned_by` only reads the owners below `upto`.
proof fn lemma_owned_by_agree(a: Seq<int>, b: Seq<int>, k: int, upto: int)
    requires
        0 <= upto <= a.len(),
        upto <= b.len(),
        forall|i: int| 0 <= i < upto ==> a[i] == b[i],
    ensures
        owned_by(a, k, upto) == owned_by(b, k, upto),
    decreases upto,
{
    if upto > 0 {
        lemma_owned_by_agree(a, b, k, upto - 1);
    }
}

/// Appending items owned by someone else leaves `k`'s list unchanged.
proof fn lemma_owned_by_tail_other(owners: Seq<int>, k: int, start: int, end: int)
    requires
        0 <= start <= end <= owners.len(),
        forall|i: int| start <= i < end ==> owners[i] != k,
    ensures
        owned_by(owners, k, end) == owned_by(owners, k, start),
    decreases end - start,
{
    if start < end {
        lemma_owned_by_tail_other(owners, k, start, end - 1);
    }
}

/// A run of items all owned by `k` adds that many to `k`'s list.
proof fn lemma_owned_by_run(owners: Seq<int>, k: int, start: int, end: int)
    requires
        0 <= start <= end <= owners.len(),
        forall|i: int| 0 <= i < start ==> owners[i] != k,
        forall|i: int| start <= i < end ==> owners[i] == k,
    ensures
        owned_count(owners, k, end) == end - start,
    decreases end,
{
    if end > start {
        lemma_owned_by_run(owners, k, start, end - 1);
    } else {
        lemma_owned_by_none(owners, k, end);
    }
}

/// With no item of `k` below `upto`, `k`'s list is empty.
proof fn lemma_owned_by_none(owners: Seq<int>, k: int, upto: int)
    requires
        0 <= upto <= owners.len(),
        forall|i: int| 0 <= i < upto ==> owners[i] != k,
    ensures
        owned_count(owners, k, upto) == 0,
    decreases upto,
{
    if upto > 0 {
        lemma_owned_by_none(owners, k, upto - 1);
    }
}

/// Machine that drives headland ring `r` as a whole under `mode` with `m`
/// machines; `None` where the mode assigns no whole rings.
pub open spec fn ring_owner(mode: HeadlandMode, r: int, m: int) -> Option<int> {
    match mode {
        HeadlandMode::OnePerMachine => Some(r % m),
        HeadlandMode::Dedicated { machine } => Some(if machine < m - 1 { machine as int } else { m - 1 }),
        _ => None,
    }
}

/// Owner of each ring for whole-ring assignment; rings with fewer than two
/// vertices are driven by nobody (`-1`).
pub open spec fn ring_owners(mode: HeadlandMode, ring_sizes: Seq<usize>, m: int) -> Seq<int> {
    Seq::new(
        ring_sizes.len(),
        |r: int|
            if ring_sizes[r] >= 2 {
                match ring_owner(mode, r, m) {
                    Some(k) => k,
                    None => -1,
                }
            } else {
                -1
            },
    )
}

/// Machine that drives every ring under dedicated headlands: the requested
/// one, clamped to the last machine.
pub open spec fn dedicated_owner(machine: usize, m: int) -> int {
    if machine < m - 1 { machine as int } else { m - 1 }
}

/// Rings per machine that `assign_headland_rings` gives: nobody gets a ring
/// without machines or rings or with unassigned headlands, rings are cut by
/// zone instead (`None`) under `SplitByZone`, and otherwise each machine gets
/// the rings it owns.
pub open spec fn headland_rings(mode: HeadlandMode, ring_sizes: Seq<usize>, m: int) -> Option<Seq<Seq<usize>>> {
    if m <= 0 || ring_sizes.len() == 0 {
        Some(Seq::new(if m <= 0 { 0nat } else { m as nat }, |k: int| Seq::<usize>::empty()))
    } else {
        match mode {
            HeadlandMode::SplitByZone => None,
            HeadlandMode::Unassigned => Some(Seq::new(m as nat, |k: int| Seq::<usize>::empty())),
            _ => Some(owner_buckets(ring_owners(mode, ring_sizes, m), m)),
        }
    }
}

/// Distribute whole headland rings (given by their vertex counts, outermost
/// first) over `machine_count` machines. Returns per-machine ring indices in
/// increasing order; `None` for `SplitByZone`, where rings are cut by the
/// machines' lateral zones instead (unless there are no machines or rings,
/// in which case nobody gets anything).
pub fn assign_headland_rings(mode: HeadlandMode, ring_sizes: &Vec<usize>, machine_count: usize) -> (out: Option<Vec<Vec<usize>>>)
    ensures
        machine_count == 0 || ring_sizes.len() == 0 ==> (out matches Some(b) && b.len() == machine_count
            && forall|k: int| 0 <= k < machine_count ==> #[trigger] b[k]@.len() == 0),
        machine_count > 0 && ring_sizes.len() > 0 ==> match mode {
            HeadlandMode::SplitByZone => out is None,
            HeadlandMode::Unassigned => (out matches Some(b) && b.len() == machine_count
                && forall|k: int| 0 <= k < machine_count ==> #[trigger] b[k]@.len() == 0),
            _ => (out matches Some(b) && buckets_match_owners(views(b@), ring_owners(mode, ring_sizes@, machine_count as int), machine_count as int)),
        },
        match out {
            Some(b) => headland_rings(mode, ring_sizes@, machine_count as int) == Some(views(b@)),
            None => headland_rings(mode, ring_sizes@, machine_count as int) is None,
        },
{
    let m = machine_count;
    let mut buckets: Vec<Vec<usize>> = Vec::new();
    let mut k: usize = 0;
    while k < m
        invariant
            k <= m,
            buckets.len() == k,
            forall|j: int| 0 <= j < k ==> #[trigger] buckets[j]@ == Seq::<usize>::empty(),
        decreases m - k,
    {
        buckets.push(Vec::new());
        k = k + 1;
    }
    assert(views(buckets@) =~= Seq::new(m as nat, |k: int| Seq::<usize>::empty()));
    if m == 0 || ring_sizes.len() == 0 {
        return Some(buckets);
    }
    match mode {
        HeadlandMode::SplitByZone => {
            return None;
        },
        HeadlandMode::Unassigned => {
            return Some(buckets);
        },
        _ => {},
    }
    let ghost owners = ring_owners(mode, ring_sizes@, m as int);
    let n = ring_sizes.len();
    proof {
        assert forall|j: int| 0 <= j < m implies #[trigger] buckets[j]@ == owned_by(owners, j, 0) by {}
    }
    let mut r: usize = 0;
    while r < n
        invariant
            n == ring_sizes.len(),
            0 < m,
            owners == ring_owners(mode, ring_sizes@, m as int),
            mode is OnePerMachine || mode is Dedicated,
            r <= n,
            buckets.len() == m,
            forall|j: int| 0 <= j < m ==> #[trigger] buckets[j]@ == owned_by(owners, j, r as int),
        decreases n - r,
    {
        if ring_sizes[r] >= 2 {
            let target = match mode {
                HeadlandMode::Dedicated { machine } => if machine < m - 1 { machine } else { m - 1 },
                _ => r % m,
            };
            assert(owners[r as int] == target as int);
            let ghost before = buckets@;
            let mut bucket = Vec::new();
            std::mem::swap(&mut bucket, &mut buckets[target]);
            bucket.push(r);
            buckets.set(target, bucket);
            assert forall|j: int| 0 <= j < m implies #[trigger] buckets[j]@ == owned_by(owners, j, r + 1) by {
                if j != target as int {
                    assert(buckets[j] == before[j]);
                }
            }
        } else {
            assert(owners[r as int] == -1);
        }
        r = r + 1;
    }
    assert forall|j: int| 0 <= j < m implies #[trigger] views(buckets@)[j] == owned_by(owners, j, owners.len() as int) by {}
    proof {
        lemma_match_is_owner_buckets(views(buckets@), owners, m as int);
    }
    Some(buckets)
}

/// Rows and headland rings per machine of a division by count (see
/// `Divy::divide_by_count`).
pub open spec fn count_division(
    mode: HeadlandMode,
    pattern: AssignPattern,
    n: int,
    quotas: Seq<usize>,
    band_quotas: Seq<Seq<usize>>,
    ring_sizes: Seq<usize>,
) -> (Seq<Seq<usize>>, Option<Seq<Seq<usize>>>) {
    (count_assignment(pattern, n, quotas, band_quotas), headland_rings(mode, ring_sizes, quotas.len() as int))
}

/// Dividing the same rows and rings with dedicated headlands instead of
/// unassigned ones changes only the rings: both give every machine the same
/// rows, the unassigned division gives no machine a ring, and the dedicated
/// one gives every ring with at least two vertices to machine
/// `min(machine, m - 1)` and none to any other machine.
pub proof fn lemma_dedicated_division_differs_only_in_rings(
    machine: usize,
    pattern: AssignPattern,
    n: int,
    quotas: Seq<usize>,
    band_quotas: Seq<Seq<usize>>,
    ring_sizes: Seq<usize>,
)
    requires
        quotas.len() > 0,
        ring_sizes.len() <= usize::MAX,
    ensures
        ({
            let m = quotas.len() as int;
            let a = count_division(HeadlandMode::Dedicated { machine }, pattern, n, quotas, band_quotas, ring_sizes);
            let b = count_division(HeadlandMode::Unassigned, pattern, n, quotas, band_quotas, ring_sizes);
            &&& a.0 == b.0
            &&& b.1 matches Some(u) && u.len() == m && forall|k: int| 0 <= k < m ==> (#[trigger] u[k]).len() == 0
            &&& a.1 matches Some(d) && d.len() == m && forall|r: int, k: int|
                0 <= r < ring_sizes.len() && 0 <= k < m ==> (#[trigger] d[k].contains(r as usize) <==> (
                ring_sizes[r] >= 2 && k == dedicated_owner(machine, m)))
        }),
{
    lemma_dedicated_and_unassigned_headlands(machine, ring_sizes, quotas.len() as int);
}

/// Dedicated headlands give every ring with at least two vertices to the one
/// machine `min(machine, m - 1)` and no ring to any other machine, while
/// unassigned headlands give no machine any ring.
pub proof fn lemma_dedicated_and_unassigned_headlands(machine: usize, ring_sizes: Seq<usize>, m: int)
    requires
        0 < m,
        ring_sizes.len() <= usize::MAX,
    ensures
        headland_rings(HeadlandMode::Unassigned, ring_sizes, m) matches Some(u) && u.len() == m
            && forall|k: int| 0 <= k < m ==> (#[trigger] u[k]).len() == 0,
        headland_rings(HeadlandMode::Dedicated { machine }, ring_sizes, m) matches Some(a) && a.len() == m
            && forall|r: int, k: int|
            0 <= r < ring_sizes.len() && 0 <= k < m ==> (#[trigger] a[k].contains(r as usize) <==> (
            ring_sizes[r] >= 2 && k == dedicated_owner(machine, m))),
{
    let mode = HeadlandMode::Dedicated { machine };
    let owners = ring_owners(mode, ring_sizes, m);
    if ring_sizes.len() > 0 {
        let a = owner_buckets(owners, m);
        assert forall|r: int, k: int| 0 <= r < ring_sizes.len() && 0 <= k < m implies (#[trigger] a[k].contains(r as usize) <==> (
            ring_sizes[r] >= 2 && k == dedicated_owner(machine, m))) by {
            lemma_owned_by_facts(owners, k, owners.len() as int);
        }
    }
}

/// Under one-ring-per-machine every ring that has at least two vertices is
/// driven by exactly one machine, namely ring `r` by machine `r mod m`.
pub proof fn lemma_one_per_machine_rings(buckets: Seq<Seq<usize>>, ring_sizes: Seq<usize>, m: int)
    requires
        0 < m,
        ring_sizes.len() <= usize::MAX,
        buckets_match_owners(buckets, ring_owners(HeadlandMode::OnePerMachine, ring_sizes, m), m),
    ensures
        forall|r: int, k: int|
            0 <= r < ring_sizes.len() && 0 <= k < m ==> (#[trigger] buckets[k].contains(r as usize) <==> (
            ring_sizes[r] >= 2 && r % m == k)),
{
    let owners = ring_owners(HeadlandMode::OnePerMachine, ring_sizes, m);
    assert forall|r: int, k: int| 0 <= r < ring_sizes.len() && 0 <= k < m implies (#[trigger] buckets[k].contains(r as usize) <==> (
        ring_sizes[r] >= 2 && r % m == k)) by {
        lemma_owned_by_facts(owners, k, owners.len() as int);
        vstd::arithmetic::div_mod::lemma_mod_bound(r, m);
    }
}

/// Machine whose band-local bucket lands on machine `t` in band `b`: bands
/// rotate the striping by one machine each.
pub open spec fn band_source(t: int, b: int, m: int) -> int {
    (t - b) % m
}

/// Band-local row indices shifted to canonical positions.
pub open spec fn shifted(s: Seq<usize>, start: int) -> Seq<usize> {
    s.map_values(|x: usize| (x + start) as usize)
}

/// Per-machine rows after merging the first `bands` bands.
pub open spec fn merged_bands(bounds: Seq<(usize, usize)>, local: Seq<Seq<Seq<usize>>>, m: int, bands: int) -> Seq<Seq<usize>>
    decreases bands,
{
    if bands <= 0 {
        Seq::new(m as nat, |t: int| Seq::<usize>::empty())
    } else {
        let prev = merged_bands(bounds, local, m, bands - 1);
        Seq::new(
            m as nat,
            |t: int| prev[t] + shifted(local[bands - 1][band_source(t, bands - 1, m)], bounds[bands - 1].0 as int),
        )
    }
}

/// Band-local buckets as nested views.
pub open spec fn nested_views(local: Seq<Vec<Vec<usize>>>) -> Seq<Seq<Seq<usize>>> {
    local.map_values(|b: Vec<Vec<usize>>| views(b@))
}

/// Rotating by `b` and back lands on the same machine.
proof fn lemma_band_source_rotates(t: int, b: int, m: int)
    requires
        0 < m,
        0 <= t < m,
    ensures
        0 <= band_source(t, b, m) < m,
        (band_source(t, b, m) + b) % m == t,
{
    vstd::arithmetic::div_mod::lemma_fundamental_div_mod(t - b, m);
    vstd::arithmetic::div_mod::lemma_mod_bound(t - b, m);
    let q = (t - b) / m;
    let r = (t - b) % m;
    assert(r + b == (-q) * m + t) by (nonlinear_arith)
        requires
            t - b == m * q + r,
    ;
    vstd::arithmetic::div_mod::lemma_fundamental_div_mod_converse(r + b, m, -q, t);
}

/// The machine sent to `(mach + b) mod m` in band `b` is `mach`.
proof fn lemma_band_source_inverse(mach: int, b: int, m: int)
    requires
        0 < m,
        0 <= mach < m,
        0 <= b,
    ensures
        band_source((mach + b) % m, b, m) == mach,
{
    vstd::arithmetic::div_mod::lemma_fundamental_div_mod(mach + b, m);
    let q = (mach + b) / m;
    let t = (mach + b) % m;
    assert(t - b == (-q) * m + mach) by (nonlinear_arith)
        requires
            mach + b == m * q + t,
    ;
    vstd::arithmetic::div_mod::lemma_fundamental_div_mod_converse(t - b, m, -q, mach);
}

/// Combine per-band striping results into per-machine rows: band `b` covers
/// canonical rows `bounds[b].0..bounds[b].1`, and its machine `j` bucket goes
/// to machine `(j + b) mod m` so no machine always owns the same strip.
pub fn merge_band_buckets(m: usize, bounds: &Vec<(usize, usize)>, local: &Vec<Vec<Vec<usize>>>) -> (out: Vec<Vec<usize>>)
    requires
        m > 0,
        local.len() == bounds.len(),
        forall|b: int| 0 <= b < local.len() ==> #[trigger] local[b].len() == m,
        forall|b: int, j: int, a: int|
            0 <= b < local.len() && 0 <= j < m && 0 <= a < local[b][j].len() ==> bounds[b].0 + #[trigger] local[b][j][a] <= usize::MAX,
    ensures
        views(out@) == merged_bands(bounds@, nested_views(local@), m as int, bounds.len() as int),
{
    let ghost lv = nested_views(local@);
    let mut out: Vec<Vec<usize>> = Vec::new();
    let mut k: usize = 0;
    while k < m
        invariant
            k <= m,
            out.len() == k,
            forall|j: int| 0 <= j < k ==> #[trigger] out[j]@ == Seq::<usize>::empty(),
        decreases m - k,
    {
        out.push(Vec::new());
        k = k + 1;
    }
    assert(views(out@) =~= merged_bands(bounds@, lv, m as int, 0));
    let mut b: usize = 0;
    while b < bounds.len()
        invariant
            m > 0,
            lv == nested_views(local@),
            local.len() == bounds.len(),
            forall|bb: int| 0 <= bb < local.len() ==> #[trigger] local[bb].len() == m,
            forall|bb: int, j: int, a: int|
                0 <= bb < local.len() && 0 <= j < m && 0 <= a < local[bb][j].len() ==> bounds[bb].0 + #[trigger] local[bb][j][a] <= usize::MAX,
            b <= bounds.len(),
            out.len() == m,
            views(out@) == merged_bands(bounds@, lv, m as int, b as int),
        decreases bounds.len() - b,
    {
        let start = bounds[b].0;
        let ghost prev = views(out@);
        let mut mach: usize = 0;
        while mach < m
            invariant
                m > 0,
                lv == nested_views(local@),
                local.len() == bounds.len(),
                b < bounds.len(),
                start == bounds[b as int].0,
                local[b as int].len() == m,
                forall|j: int, a: int|
                    0 <= j < m && 0 <= a < local[b as int][j].len() ==> start + #[trigger] local[b as int][j][a] <= usize::MAX,
                mach <= m,
                out.len() == m,
                prev.len() == m,
                forall|t: int|
                    0 <= t < m ==> #[trigger] out[t]@ == prev[t] + if band_source(t, b as int, m as int) < mach {
                        shifted(lv[b as int][band_source(t, b as int, m as int)], start as int)
                    } else {
                        Seq::<usize>::empty()
                    },
            decreases m - mach,
        {
            let bm = b % m;
            let target = if mach >= m - bm { mach - (m - bm) } else { mach + bm };
            proof {
                vstd::arithmetic::div_mod::lemma_add_mod_noop(mach as int, b as int, m as int);
                vstd::arithmetic::div_mod::lemma_small_mod(mach as nat, m as nat);
                if mach >= m - bm {
                    vstd::arithmetic::div_mod::lemma_fundamental_div_mod_converse(mach + bm, m as int, 1, target as int);
                } else {
                    vstd::arithmetic::div_mod::lemma_fundamental_div_mod_converse(mach + bm, m as int, 0, target as int);
                }
                assert(target == (mach + b) % (m as int));
                lemma_band_source_inverse(mach as int, b as int, m as int);
            }
            let src = &local[b][mach];
            let ghost before = out@;
            let mut bucket = Vec::new();
            std::mem::swap(&mut bucket, &mut out[target]);
            let ghost base = bucket@;
            let mut a: usize = 0;
            while a < src.len()
                invariant
                    a <= src.len(),
                    forall|i: int| 0 <= i < src.len() ==> start + #[trigger] src[i] <= usize::MAX,
                    bucket@ == base + shifted(src@.take(a as int), start as int),
                decreases src.len() - a,
            {
                bucket.push(src[a] + start);
                assert(shifted(src@.take(a + 1), start as int) =~= shifted(src@.take(a as int), start as int).push((src[a as int] + start) as usize));
                a = a + 1;
            }
            assert(src@.take(src.len() as int) =~= src@);
            out.set(target, bucket);
            assert(lv[b as int][mach as int] == src@);
            assert forall|t: int| 0 <= t < m implies #[trigger] out[t]@ == prev[t] + if band_source(t, b as int, m as int) < mach + 1 {
                shifted(lv[b as int][band_source(t, b as int, m as int)], start as int)
            } else {
                Seq::<usize>::empty()
            } by {
                lemma_band_source_rotates(t, b as int, m as int);
                if t == target as int {
                    assert(band_source(t, b as int, m as int) == mach);
                    assert(prev[t] + Seq::<usize>::empty() =~= prev[t]);
                } else {
                    assert(out[t] == before[t]);
                    if band_source(t, b as int, m as int) == mach {
                        assert(t == (mach + b) % (m as int));
                    }
                }
            }
            mach = mach + 1;
        }
        assert forall|t: int| 0 <= t < m implies #[trigger] views(out@)[t] == merged_bands(bounds@, lv, m as int, b + 1)[t] by {
            lemma_band_source_rotates(t, b as int, m as int);
        }
        assert(views(out@) =~= merged_bands(bounds@, lv, m as int, b + 1));
        b = b + 1;
    }
    out
}

/// Last row reached by the first `bands` bands.
pub open spec fn bands_reach(bounds: Seq<(usize, usize)>, bands: int) -> int {
    if bands <= 0 { 0 } else { bounds[bands - 1].1 as int }
}

/// `bounds` are contiguous ranges, each band starting where the previous one ends,
/// the first at row 0.
pub open spec fn bands_contiguous(bounds: Seq<(usize, usize)>) -> bool {
    &&& bounds.len() > 0 ==> bounds[0].0 == 0
    &&& forall|b: int| 0 <= b < bounds.len() ==> #[trigger] bounds[b].0 <= bounds[b].1
    &&& forall|b: int| 0 <= b < bounds.len() - 1 ==> #[trigger] bounds[b].1 == bounds[b + 1].0
}

/// Element `a` of a shifted bucket is the band-local row moved to its canonical position.
proof fn lemma_shifted_index(s: Seq<usize>, start: int, a: int)
    requires
        0 <= a < s.len(),
        0 <= start,
        s[a] + start <= usize::MAX,
    ensures
        shifted(s, start).len() == s.len(),
        shifted(s, start)[a] == s[a] + start,
{
}

/// Merging band-local partitions of contiguous bands, rotated per band, gives
/// a partition of all rows the merged bands cover.
pub proof fn lemma_merged_bands_partition(bounds: Seq<(usize, usize)>, local: Seq<Seq<Seq<usize>>>, m: int, bands: int)
    requires
        0 < m,
        0 <= bands <= bounds.len(),
        local.len() == bounds.len(),
        bands_contiguous(bounds),
        forall|b: int| 0 <= b < local.len() ==> (#[trigger] local[b]).len() == m,
        forall|b: int|
            0 <= b < local.len() ==> is_partition(#[trigger] local[b], bounds[b].1 - bounds[b].0),
    ensures
        merged_bands(bounds, local, m, bands).len() == m,
        is_partition(merged_bands(bounds, local, m, bands), bands_reach(bounds, bands)),
    decreases bands,
{
    let cur = merged_bands(bounds, local, m, bands);
    if bands == 0 {
        assert forall|i: usize| i < 0 implies #[trigger] in_some_bucket(cur, i) by {}
        return;
    }
    let c = bands - 1;
    lemma_merged_bands_partition(bounds, local, m, c);
    let prev = merged_bands(bounds, local, m, c);
    let s = bounds[c].0 as int;
    let e = bounds[c].1 as int;
    let l = local[c];
    assert(bands_reach(bounds, c) == s) by {
        if c > 0 {
            assert(bounds[c - 1].1 == bounds[c].0);
        }
    }
    assert(is_partition(l, e - s));
    // Every piece of the new bucket `t`: old rows first, then the band's rows.
    assert forall|t: int, a: int| 0 <= t < m && 0 <= a < cur[t].len() implies {
        &&& a < prev[t].len() ==> #[trigger] cur[t][a] == prev[t][a] && prev[t][a] < s
        &&& a >= prev[t].len() ==> {
            &&& 0 <= band_source(t, c, m) < m
            &&& a - prev[t].len() < l[band_source(t, c, m)].len()
            &&& cur[t][a] == l[band_source(t, c, m)][a - prev[t].len()] + s
            &&& s <= cur[t][a] < e
        }
    } by {
        lemma_band_source_rotates(t, c, m);
        let j = band_source(t, c, m);
        let sh = shifted(l[j], s);
        assert(cur[t] == prev[t] + sh);
        if a >= prev[t].len() {
            let x = a - prev[t].len();
            assert(l[j][x] < e - s);
            lemma_shifted_index(l[j], s, x);
        } else {
            assert(prev[t][a] < s);
        }
    }
    assert forall|t: int| 0 <= t < m implies #[trigger] cur[t].len() == prev[t].len() + l[band_source(t, c, m)].len() by {
        lemma_band_source_rotates(t, c, m);
        assert(cur[t] == prev[t] + shifted(l[band_source(t, c, m)], s));
    }
    assert forall|k: int, a: int, b: int|
        0 <= k < cur.len() && 0 <= a < b < cur[k].len() implies #[trigger] cur[k][a] < #[trigger] cur[k][b] by {
        let p = prev[k].len() as int;
        if b < p {
        } else if a < p {
            assert(cur[k][a] < s);
        } else {
            lemma_band_source_rotates(k, c, m);
            let j = band_source(k, c, m);
            assert(l[j][a - p] < l[j][b - p]);
        }
    }
    assert forall|k: int, a: int| 0 <= k < cur.len() && 0 <= a < cur[k].len() implies #[trigger] cur[k][a] < e by {
        if a < prev[k].len() {
            assert(cur[k][a] < s);
        }
    }
    assert forall|i: usize| i < e implies #[trigger] in_some_bucket(cur, i) by {
        if i < s {
            assert(in_some_bucket(prev, i));
            let k = choose|k: int| 0 <= k < prev.len() && #[trigger] prev[k].contains(i);
            let a = choose|a: int| 0 <= a < prev[k].len() && prev[k][a] == i;
            assert(cur[k].len() == prev[k].len() + l[band_source(k, c, m)].len());
            assert(cur[k][a] == i);
            assert(cur[k].contains(i));
        } else {
            let x = (i - s) as usize;
            assert(in_some_bucket(l, x));
            let j = choose|j: int| 0 <= j < l.len() && #[trigger] l[j].contains(x);
            let a = choose|a: int| 0 <= a < l[j].len() && l[j][a] == x;
            let t = (j + c) % m;
            lemma_band_source_inverse(j, c, m);
            vstd::arithmetic::div_mod::lemma_mod_bound(j + c, m);
            assert(band_source(t, c, m) == j);
            let p = prev[t].len() as int;
            assert(cur[t].len() == p + l[j].len());
            assert(cur[t][p + a] == l[j][a] + s);
            assert(cur[t].contains(i));
        }
    }
    assert forall|i: usize, k1: int, k2: int|
        0 <= k1 < cur.len() && 0 <= k2 < cur.len() && #[trigger] cur[k1].contains(i)
            && #[trigger] cur[k2].contains(i) implies k1 == k2 by {
        let a1 = choose|a: int| 0 <= a < cur[k1].len() && cur[k1][a] == i;
        let a2 = choose|a: int| 0 <= a < cur[k2].len() && cur[k2][a] == i;
        if i < s {
            if a1 >= prev[k1].len() {
                assert(s <= cur[k1][a1]);
            }
            if a2 >= prev[k2].len() {
                assert(s <= cur[k2][a2]);
            }
            assert(prev[k1][a1] == i);
            assert(prev[k2][a2] == i);
            assert(prev[k1].contains(i));
            assert(prev[k2].contains(i));
        } else {
            if a1 < prev[k1].len() {
                assert(cur[k1][a1] < s);
            }
            if a2 < prev[k2].len() {
                assert(cur[k2][a2] < s);
            }
            lemma_band_source_rotates(k1, c, m);
            lemma_band_source_rotates(k2, c, m);
            let j1 = band_source(k1, c, m);
            let j2 = band_source(k2, c, m);
            let x = (i - s) as usize;
            let b1 = a1 - prev[k1].len();
            let b2 = a2 - prev[k2].len();
            assert(l[j1][b1] == x);
            assert(l[j2][b2] == x);
            assert(l[j1].contains(x));
            assert(l[j2].contains(x));
        }
    }
}

/// Band-local striping results: for band `b` of `slice_bounds(n, bands)`,
/// machine `k`'s rows (band-local indices) under quota-limited stride-1
/// striping with that band's quotas.
pub open spec fn band_local_buckets(bounds: Seq<(usize, usize)>, band_quotas: Seq<Seq<usize>>, m: int) -> Seq<Seq<Seq<usize>>> {
    Seq::new(
        bounds.len(),
        |b: int|
            Seq::new(
                m as nat,
                |k: int|
                    owned_by(
                        stripe_owners(band_quotas[b], 1, bounds[b].1 - bounds[b].0),
                        k,
                        bounds[b].1 - bounds[b].0,
                    ),
            ),
    )
}

/// Quota vectors as sequences.
pub open spec fn quota_views(q: Seq<Vec<usize>>) -> Seq<Seq<usize>> {
    q.map_values(|v: Vec<usize>| v@)
}

/// Banded striping: split the `n` canonical rows into `bands` contiguous
/// near-equal bands, stripe each band by one row per machine under that
/// band's quotas (`band_quotas[b]`), and rotate the starting machine by one per
/// band. One band or none is plain block assignment under `block_quotas`.
pub fn banded_stripe_by_count(n: usize, bands: usize, block_quotas: &Vec<usize>, band_quotas: &Vec<Vec<usize>>) -> (out: Vec<Vec<usize>>)
    requires
        block_quotas.len() > 0,
        bands > 1 ==> band_quotas.len() == slice_bounds(n as int, bands as int).len(),
        bands > 1 ==> forall|b: int| 0 <= b < band_quotas.len() ==> #[trigger] band_quotas[b].len() == block_quotas.len(),
    ensures
        bands <= 1 ==> buckets_match_owners(views(out@), block_owners(block_quotas@, n as int), block_quotas.len() as int),
        bands > 1 ==> views(out@) == merged_bands(
            slice_bounds(n as int, bands as int),
            band_local_buckets(slice_bounds(n as int, bands as int), quota_views(band_quotas@), block_quotas.len() as int),
            block_quotas.len() as int,
            slice_bounds(n as int, bands as int).len() as int,
        ),
        out.len() == block_quotas.len(),
        is_partition(views(out@), n as int),
{
    if bands <= 1 {
        let out = block_by_count(n, block_quotas);
        proof {
            lemma_owner_buckets_partition(views(out@), block_owners(block_quotas@, n as int), block_quotas.len() as int);
        }
        return out;
    }
    let m = block_quotas.len();
    let bounds = equal_count_slices(n, bands);
    let ghost bq = quota_views(band_quotas@);
    let ghost expected = band_local_buckets(bounds@, bq, m as int);
    let mut local: Vec<Vec<Vec<usize>>> = Vec::new();
    let mut b: usize = 0;
    while b < bounds.len()
        invariant
            m == block_quotas.len(),
            m > 0,
            bounds@ == slice_bounds(n as int, bands as int),
            forall|i: int| 0 <= i < bounds.len() ==> #[trigger] bounds[i].0 <= bounds[i].1 <= n,
            band_quotas.len() == bounds.len(),
            forall|i: int| 0 <= i < band_quotas.len() ==> #[trigger] band_quotas[i].len() == m,
            bq == quota_views(band_quotas@),
            expected == band_local_buckets(bounds@, bq, m as int),
            b <= bounds.len(),
            local.len() == b,
            forall|i: int| 0 <= i < b ==> #[trigger] nested_views(local@)[i] == expected[i],
            forall|i: int| 0 <= i < b ==> is_partition(#[trigger] expected[i], bounds[i].1 - bounds[i].0),
            forall|i: int| 0 <= i < b ==> #[trigger] local[i].len() == m,
            forall|i: int, j: int, a: int|
                0 <= i < b && 0 <= j < m && 0 <= a < local[i][j].len() ==> bounds[i].0 + #[trigger] local[i][j][a] <= usize::MAX,
        decreases bounds.len() - b,
    {
        let (start, end) = bounds[b];
        let len = end - start;
        let part = stripe_with_quotas(len, &band_quotas[b], 1);
        let ghost owners = stripe_owners(band_quotas[b as int]@, 1, len as int);
        proof {
            assert(bq[b as int] == band_quotas[b as int]@);
            assert forall|j: int| 0 <= j < m implies #[trigger] views(part@)[j] == expected[b as int][j] by {}
            assert(views(part@) =~= expected[b as int]);
            lemma_owner_buckets_partition(views(part@), owners, m as int);
            assert forall|j: int, a: int| 0 <= j < m && 0 <= a < part[j].len() implies start + #[trigger] part[j][a] <= usize::MAX by {
                lemma_owned_by_facts(owners, j, len as int);
                assert(views(part@)[j] == owned_by(owners, j, len as int));
                assert(part[j]@[a] < len);
            }
        }
        let ghost before = local@;
        local.push(part);
        proof {
            assert forall|i: int| 0 <= i < b + 1 implies #[trigger] nested_views(local@)[i] == expected[i] by {
                assert(nested_views(local@)[i] == views(local[i]@));
                if i < b {
                    assert(local[i] == before[i]);
                    assert(nested_views(before)[i] == views(before[i]@));
                } else {
                    assert(local[i] == part);
                }
            }
            assert forall|i: int, j: int, a: int|
                0 <= i < b + 1 && 0 <= j < m && 0 <= a < local[i][j].len() implies bounds[i].0 + #[trigger] local[i][j][a] <= usize::MAX by {
                if i < b {
                    assert(local[i] == before[i]);
                }
            }
        }
        b = b + 1;
    }
    assert(nested_views(local@) =~= expected);
    proof {
        assert(bands_contiguous(bounds@));
        assert(bands_reach(bounds@, bounds.len() as int) == n);
        lemma_merged_bands_partition(bounds@, expected, m as int, bounds.len() as int);
    }
    let out = merge_band_buckets(m, &bounds, &local);
    assert(out.len() == views(out@).len());
    out
}

/// A concrete row-division pattern (the searched `Optimized` pattern resolves
/// to one of these).
#[derive(Debug, Clone, Copy, PartialEq, Eq, Structural)]
pub enum AssignPattern {
    /// `stride` consecutive rows per machine before rotating.
    Stripe { stride: usize },
    /// Contiguous chunks along the swath normal.
    Block,
    /// `bands` contiguous bands, striped one row per machine inside each.
    BandedStripe { bands: usize },
}

/// The patterns the optimizer tries, in order: block, stripe by one, and
/// banded stripes with two and three bands where there are that many machines.
pub open spec fn candidate_patterns(machine_count: int) -> Seq<AssignPattern> {
    let base = seq![AssignPattern::Block, AssignPattern::Stripe { stride: 1 }];
    let with_two = if machine_count >= 2 { base.push(AssignPattern::BandedStripe { bands: 2 }) } else { base };
    if machine_count >= 3 { with_two.push(AssignPattern::BandedStripe { bands: 3 }) } else { with_two }
}

/// Candidate patterns for the optimized division.
pub fn optimize_candidates(machine_count: usize) -> (out: Vec<AssignPattern>)
    ensures
        out@ == candidate_patterns(machine_count as int),
{
    let mut out = vec![AssignPattern::Block, AssignPattern::Stripe { stride: 1 }];
    if machine_count >= 2 {
        out.push(AssignPattern::BandedStripe { bands: 2 });
    }
    if machine_count >= 3 {
        out.push(AssignPattern::BandedStripe { bands: 3 });
    }
    assert(out@ =~= candidate_patterns(machine_count as int));
    out
}

/// Buckets listing, for each machine `k < m`, the items it owns.
pub open spec fn owner_buckets(owners: Seq<int>, m: int) -> Seq<Seq<usize>> {
    Seq::new(m as nat, |k: int| owned_by(owners, k, owners.len() as int))
}

/// Rows of each machine when `n` canonical rows are assigned by count under
/// `pattern` (see `Divy::assign_rows_by_count`).
pub open spec fn count_assignment(pattern: AssignPattern, n: int, quotas: Seq<usize>, band_quotas: Seq<Seq<usize>>) -> Seq<Seq<usize>> {
    let m = quotas.len() as int;
    match pattern {
        AssignPattern::Stripe { stride } => owner_buckets(stripe_owners(quotas, if stride == 0 { 1 } else { stride as int }, n), m),
        AssignPattern::Block => owner_buckets(block_owners(quotas, n), m),
        AssignPattern::BandedStripe { bands } => if bands <= 1 {
            owner_buckets(block_owners(quotas, n), m)
        } else {
            merged_bands(
                slice_bounds(n, bands as int),
                band_local_buckets(slice_bounds(n, bands as int), band_quotas, m),
                m,
                slice_bounds(n, bands as int).len() as int,
            )
        },
    }
}

proof fn lemma_match_is_owner_buckets(buckets: Seq<Seq<usize>>, owners: Seq<int>, m: int)
    requires
        buckets_match_owners(buckets, owners, m),
    ensures
        buckets == owner_buckets(owners, m),
{
    assert(buckets =~= owner_buckets(owners, m));
}

impl Divy {
    /// Assign `n` canonical rows to machines by count under `pattern`.
    /// `quotas` are the per-machine row quotas for all `n` rows; `band_quotas`
    /// are the quotas for each band of a banded stripe. A stride or band count
    /// of zero is treated as one.
    pub fn assign_rows_by_count(pattern: AssignPattern, n: usize, quotas: &Vec<usize>, band_quotas: &Vec<Vec<usize>>) -> (out: Vec<Vec<usize>>)
        requires
            quotas.len() > 0,
            match pattern {
                AssignPattern::BandedStripe { bands } => bands > 1 ==> band_quotas.len() == slice_bounds(n as int, bands as int).len()
                    && forall|b: int| 0 <= b < band_quotas.len() ==> #[trigger] band_quotas[b].len() == quotas.len(),
                _ => true,
            },
        ensures
            match pattern {
                AssignPattern::Stripe { stride } => buckets_match_owners(
                    views(out@),
                    stripe_owners(quotas@, if stride == 0 { 1 } else { stride as int }, n as int),
                    quotas.len() as int,
                ),
                AssignPattern::Block => buckets_match_owners(views(out@), block_owners(quotas@, n as int), quotas.len() as int),
                AssignPattern::BandedStripe { bands } => if bands <= 1 {
                    buckets_match_owners(views(out@), block_owners(quotas@, n as int), quotas.len() as int)
                } else {
                    views(out@) == merged_bands(
                        slice_bounds(n as int, bands as int),
                        band_local_buckets(slice_bounds(n as int, bands as int), quota_views(band_quotas@), quotas.len() as int),
                        quotas.len() as int,
                        slice_bounds(n as int, bands as int).len() as int,
                    )
                },
            },
            views(out@) == count_assignment(pattern, n as int, quotas@, quota_views(band_quotas@)),
            out.len() == quotas.len(),
            is_partition(views(out@), n as int),
    {
        let out = match pattern {
            AssignPattern::Stripe { stride } => {
                let stride = if stride == 0 { 1 } else { stride };
                stripe_with_quotas(n, quotas, stride)
            },
            AssignPattern::Block => block_by_count(n, quotas),
            AssignPattern::BandedStripe { bands } => banded_stripe_by_count(n, bands, quotas, band_quotas),
        };
        proof {
            match pattern {
                AssignPattern::Stripe { stride } => {
                    let owners = stripe_owners(quotas@, if stride == 0 { 1 } else { stride as int }, n as int);
                    lemma_match_is_owner_buckets(views(out@), owners, quotas.len() as int);
                    lemma_owner_buckets_partition(views(out@), owners, quotas.len() as int);
                },
                AssignPattern::Block => {
                    lemma_match_is_owner_buckets(views(out@), block_owners(quotas@, n as int), quotas.len() as int);
                    lemma_owner_buckets_partition(views(out@), block_owners(quotas@, n as int), quotas.len() as int);
                },
                AssignPattern::BandedStripe { bands } => if bands <= 1 {
                    lemma_match_is_owner_buckets(views(out@), block_owners(quotas@, n as int), quotas.len() as int);
                },
            }
        }
        out
    }

    /// Rows per machine for a division by count: refused without machines
    /// (`quotas` holds one quota per machine), otherwise the assignment of
    /// `Divy::assign_rows_by_count`.
    pub fn plan_rows(pattern: AssignPattern, n: usize, quotas: &Vec<usize>, band_quotas: &Vec<Vec<usize>>) -> (r: Result<Vec<Vec<usize>>, MaptraxError>)
        requires
            match pattern {
                AssignPattern::BandedStripe { bands } => bands > 1 ==> band_quotas.len() == slice_bounds(n as int, bands as int).len()
                    && forall|b: int| 0 <= b < band_quotas.len() ==> #[trigger] band_quotas[b].len() == quotas.len(),
                _ => true,
            },
        ensures
            quotas.len() == 0 ==> r == Err::<Vec<Vec<usize>>, MaptraxError>(MaptraxError::InvalidMachineCount),
            quotas.len() > 0 ==> (r matches Ok(out) && views(out@) == count_assignment(pattern, n as int, quotas@, quota_views(band_quotas@))),
            quotas.len() > 0 ==> (r matches Ok(out) && out.len() == quotas.len() && is_partition(views(out@), n as int)),
    {
        if quotas.len() == 0 {
            return Err(MaptraxError::InvalidMachineCount);
        }
        Ok(Self::assign_rows_by_count(pattern, n, quotas, band_quotas))
    }

    /// Division by count of `n` canonical rows and of headland rings (given
    /// by their vertex counts) among the machines that `quotas` lists: refused
    /// without machines, otherwise the rows of `Divy::plan_rows` and the rings
    /// of `assign_headland_rings` under `mode`.
    pub fn divide_by_count(
        mode: HeadlandMode,
        pattern: AssignPattern,
        n: usize,
        quotas: &Vec<usize>,
        band_quotas: &Vec<Vec<usize>>,
        ring_sizes: &Vec<usize>,
    ) -> (r: Result<(Vec<Vec<usize>>, Option<Vec<Vec<usize>>>), MaptraxError>)
        requires
            match pattern {
                AssignPattern::BandedStripe { bands } => bands > 1 ==> band_quotas.len() == slice_bounds(n as int, bands as int).len()
                    && forall|b: int| 0 <= b < band_quotas.len() ==> #[trigger] band_quotas[b].len() == quotas.len(),
                _ => true,
            },
        ensures
            quotas.len() == 0 ==> r == Err::<(Vec<Vec<usize>>, Option<Vec<Vec<usize>>>), MaptraxError>(MaptraxError::InvalidMachineCount),
            quotas.len() > 0 ==> (r matches Ok((rows, rings)) && (views(rows@), match rings {
                Some(b) => Some(views(b@)),
                None => None,
            }) == count_division(mode, pattern, n as int, quotas@, quota_views(band_quotas@), ring_sizes@)),
    {
        let rows = Self::plan_rows(pattern, n, quotas, band_quotas)?;
        let rings = assign_headland_rings(mode, ring_sizes, quotas.len());
        Ok((rows, rings))
    }
}

} // verus!
