use vstd::prelude::*;

use crate::order::{is_index_permutation, pick, lemma_distinct_cover_is_permutation};

verus! {

/// How the routed order of work rows is produced.
#[derive(Debug, Clone, Copy, PartialEq, Eq, Structural)]
pub enum RoutingStrategy {
    GreedyNearest,
    Snake,
    Spiral,
    /// Visit rows in modulo-`stride` groups so consecutive passes are `stride`
    /// rows apart. `stride: 1` is `Snake`.
    SkipRows { stride: usize },
    /// `SkipRows` with a stride derived from the turn model.
    TurnRadiusAware,
}

/// Routing strategy plus the number of adjacent-swap improvement passes.
#[derive(Debug, Clone, Copy, PartialEq, Eq, Structural)]
pub struct RoutingOptions {
    pub strategy: RoutingStrategy,
    pub local_improvement_passes: usize,
}

impl Default for RoutingOptions {
    fn default() -> (r: Self)
        ensures
            r.strategy == RoutingStrategy::GreedyNearest,
            r.local_improvement_passes == 0,
    {
        RoutingOptions { strategy: RoutingStrategy::GreedyNearest, local_improvement_passes: 0 }
    }
}

/// Positions `pos, pos + s, pos + 2s, ...` below `n`.
pub open spec fn group_from(n: int, s: int, pos: int) -> Seq<int>
    decreases n - pos,
{
    if pos >= n || s <= 0 {
        Seq::empty()
    } else if pos + s >= n {
        seq![pos]
    } else {
        seq![pos] + group_from(n, s, pos + s)
    }
}

/// `|a - b|`.
pub open spec fn gap(a: int, b: int) -> int {
    if a >= b { a - b } else { b - a }
}

/// Whether the next modulo group is walked backwards, given the last visited
/// position `prev` and the group's first and last positions: prefer the end
/// that keeps the seam at least `s` rows apart, and among equals the nearer
/// (when both are far enough) or the farther (when neither is).
pub open spec fn walk_group_backwards(prev: Option<int>, first: int, last: int, s: int) -> bool {
    match prev {
        None => false,
        Some(p) => {
            let fg = gap(p, first);
            let rg = gap(p, last);
            if fg >= s && rg < s {
                false
            } else if fg < s && rg >= s {
                true
            } else if fg >= s && rg >= s {
                rg < fg
            } else {
                rg > fg
            }
        },
    }
}

/// Visiting order of row positions for the modulo groups `offset..s`, the
/// previous group having ended at `prev`.
pub open spec fn skip_row_order(n: int, s: int, offset: int, prev: Option<int>) -> Seq<int>
    decreases s - offset,
{
    if offset >= s {
        Seq::empty()
    } else {
        let g = group_from(n, s, offset);
        if g.len() == 0 {
            skip_row_order(n, s, offset + 1, prev)
        } else {
            let ordered = if walk_group_backwards(prev, g.first(), g.last(), s) {
                g.reverse()
            } else {
                g
            };
            ordered + skip_row_order(n, s, offset + 1, Some(ordered.last()))
        }
    }
}

/// At every seam between modulo groups the next group is walked whole, in
/// canonical order or reversed, entered at one of its ends chosen by its
/// distance from the row `prev` visited last: the end at least `s` rows away
/// when only one is; the nearer end when both are; the farther end when
/// neither is. On a tie the group keeps canonical order.
pub proof fn lemma_skip_row_seam(n: int, s: int, offset: int, prev: int)
    requires
        1 < s,
        0 <= offset < s,
        offset < n,
    ensures
        ({
            let g = group_from(n, s, offset);
            let out = skip_row_order(n, s, offset, Some(prev));
            let first = g.first();
            let last = g.last();
            let fg = gap(prev, first);
            let rg = gap(prev, last);
            let enter_at_last = if fg >= s && rg < s {
                false
            } else if fg < s && rg >= s {
                true
            } else if fg >= s && rg >= s {
                rg < fg
            } else {
                rg > fg
            };
            &&& g.len() > 0
            &&& first == offset
            &&& out.len() >= g.len()
            &&& out.take(g.len() as int) == if enter_at_last { g.reverse() } else { g }
            &&& out[0] == if enter_at_last { last } else { first }
        }),
{
    let g = group_from(n, s, offset);
    assert(g.len() > 0 && g[0] == offset);
    let out = skip_row_order(n, s, offset, Some(prev));
    let ordered = if walk_group_backwards(Some(prev), g.first(), g.last(), s) { g.reverse() } else { g };
    assert(out == ordered + skip_row_order(n, s, offset + 1, Some(ordered.last())));
    assert(out.take(g.len() as int) =~= ordered);
    assert(out[0] == ordered[0]);
}

/// Positions of the canonical row list in the order `skip_row_indices` visits them.
pub open spec fn skip_row_positions(n: int, stride: int) -> Seq<int> {
    if stride <= 1 {
        Seq::new(n as nat, |i: int| i)
    } else {
        skip_row_order(n, stride, 0, None)
    }
}

/// Reorder a canonical (row-sorted) index list into modulo-`stride` groups so
/// consecutive visited rows are usually `stride` apart. Within a group the rows
/// keep canonical order or its reverse; at each group seam the orientation is
/// chosen by `walk_group_backwards`.
///
/// `canonical = [0,1,2,3,4,5,6,7,8,9]`, `stride = 3` gives
/// `0,3,6,9,1,4,7,2,5,8`.
pub fn skip_row_indices(canonical: Vec<usize>, stride: usize) -> (out: Vec<usize>)
    ensures
        out@ == pick(canonical@, skip_row_positions(canonical.len() as int, stride as int)),
{
    if stride <= 1 {
        assert(canonical@ =~= pick(canonical@, skip_row_positions(canonical.len() as int, stride as int)));
        return canonical;
    }
    let n = canonical.len();
    let ghost s = stride as int;
    let ghost full = skip_row_order(n as int, s, 0, None);
    let ghost mut visited: Seq<int> = Seq::empty();
    let mut out: Vec<usize> = Vec::new();
    let mut prev: Option<usize> = None;
    let mut offset: usize = 0;
    while offset < stride
        invariant
            1 < stride,
            s == stride,
            n == canonical.len(),
            offset <= stride,
            visited + skip_row_order(n as int, s, offset as int, opt_int(prev)) == full,
            out@ == pick(canonical@, visited),
            forall|i: int| 0 <= i < visited.len() ==> 0 <= #[trigger] visited[i] < n,
            prev matches Some(p) ==> p < n,
        decreases stride - offset,
    {
        let ghost g = group_from(n as int, s, offset as int);
        proof {
            lemma_group_from_bounds(n as int, s, offset as int);
        }
        let mut positions: Vec<usize> = Vec::new();
        let ghost mut taken: Seq<int> = Seq::empty();
        if offset < n {
            let mut pos = offset;
            loop
                invariant_except_break
                    taken + group_from(n as int, s, pos as int) == g,
                invariant
                    0 < stride,
                    s == stride,
                    offset <= pos < n,
                    positions@.len() == taken.len(),
                    forall|i: int| 0 <= i < taken.len() ==> #[trigger] taken[i] == positions@[i] as int,
                ensures
                    taken == g,
                decreases n - pos,
            {
                if stride >= n - pos {
                    proof {
                        assert(group_from(n as int, s, pos as int) =~= seq![pos as int]);
                        assert(taken.push(pos as int) =~= taken + group_from(n as int, s, pos as int));
                        taken = taken.push(pos as int);
                    }
                    positions.push(pos);
                    break;
                }
                proof {
                    assert(taken.push(pos as int) + group_from(n as int, s, pos + s) =~= taken
                        + group_from(n as int, s, pos as int));
                    taken = taken.push(pos as int);
                }
                positions.push(pos);
                pos = pos + stride;
            }
        } else {
            assert(g =~= Seq::<int>::empty());
        }
        assert(taken =~= g);
        let len = positions.len();
        if len > 0 {
            let first = positions[0];
            let last = positions[len - 1];
            let backwards = match prev {
                None => false,
                Some(p) => {
                    let fg = if p >= first { p - first } else { first - p };
                    let rg = if p >= last { p - last } else { last - p };
                    if fg >= stride && rg < stride {
                        false
                    } else if fg < stride && rg >= stride {
                        true
                    } else if fg >= stride && rg >= stride {
                        rg < fg
                    } else {
                        rg > fg
                    }
                },
            };
            assert(backwards == walk_group_backwards(opt_int(prev), g.first(), g.last(), s));
            let ghost ordered = if backwards { g.reverse() } else { g };
            let mut k: usize = 0;
            while k < len
                invariant
                    len == positions@.len(),
                    len == g.len(),
                    n == canonical.len(),
                    forall|i: int| 0 <= i < g.len() ==> #[trigger] g[i] == positions@[i] as int,
                    forall|i: int| 0 <= i < g.len() ==> 0 <= #[trigger] g[i] < n,
                    ordered == if backwards { g.reverse() } else { g },
                    k <= len,
                    out@ == pick(canonical@, visited + ordered.take(k as int)),
                decreases len - k,
            {
                let p = if backwards { positions[len - 1 - k] } else { positions[k] };
                assert(ordered[k as int] == p as int);
                out.push(canonical[p]);
                assert(ordered.take(k + 1) =~= ordered.take(k as int).push(p as int));
                assert(pick(canonical@, visited + ordered.take(k + 1)) =~= pick(
                    canonical@,
                    visited + ordered.take(k as int),
                ).push(canonical@[p as int]));
                k = k + 1;
            }
            assert(ordered.take(len as int) =~= ordered);
            let new_prev = if backwards { first } else { last };
            assert(ordered.last() == new_prev as int);
            proof {
                assert(forall|i: int| 0 <= i < ordered.len() ==> 0 <= #[trigger] ordered[i] < n);
                assert((visited + ordered) + skip_row_order(n as int, s, offset + 1, Some(ordered.last()))
                    =~= visited + (ordered + skip_row_order(n as int, s, offset + 1, Some(ordered.last()))));
                visited = visited + ordered;
            }
            prev = Some(new_prev);
        }
        offset = offset + 1;
    }
    assert(visited =~= full);
    out
}

/// `Option<usize>` read as an optional integer.
pub open spec fn opt_int(o: Option<usize>) -> Option<int> {
    match o {
        Some(p) => Some(p as int),
        None => None,
    }
}

/// Every position in `group_from(n, s, pos)` lies in `pos..n`.
pub proof fn lemma_group_from_bounds(n: int, s: int, pos: int)
    ensures
        forall|i: int|
            0 <= i < group_from(n, s, pos).len() ==> pos <= #[trigger] group_from(n, s, pos)[i] < n,
    decreases n - pos,
{
    if pos >= n || s <= 0 {
    } else if pos + s >= n {
    } else {
        lemma_group_from_bounds(n, s, pos + s);
        let g = group_from(n, s, pos);
        let rest = group_from(n, s, pos + s);
        assert forall|i: int| 0 <= i < g.len() implies pos <= #[trigger] g[i] < n by {
            if i > 0 {
                assert(g[i] == rest[i - 1]);
            }
        }
    }
}

/// Two non-negative positions with the same residue modulo `s` are at least
/// `s` apart.
proof fn lemma_same_residue_gap(a: int, b: int, s: int)
    requires
        0 < s,
        0 <= a < b,
        a % s == b % s,
    ensures
        b >= a + s,
{
    vstd::arithmetic::div_mod::lemma_fundamental_div_mod(a, s);
    vstd::arithmetic::div_mod::lemma_fundamental_div_mod(b, s);
    let qa = a / s;
    let qb = b / s;
    assert(b - a == s * (qb - qa)) by (nonlinear_arith)
        requires
            a == s * qa + a % s,
            b == s * qb + b % s,
            a % s == b % s,
    ;
    assert(qb - qa >= 1) by (nonlinear_arith)
        requires
            b - a == s * (qb - qa),
            b > a,
            s > 0,
    ;
    assert(s * (qb - qa) >= s) by (nonlinear_arith)
        requires
            qb - qa >= 1,
            s > 0,
    ;
}

/// `group_from(n, s, pos)` is strictly increasing, stays in the residue
/// class of `pos`, and holds every position of that class in `pos..n`.
proof fn lemma_group_from_facts(n: int, s: int, pos: int)
    requires
        0 < s,
        0 <= pos,
    ensures
        forall|i: int, j: int|
            0 <= i < j < group_from(n, s, pos).len() ==> #[trigger] group_from(n, s, pos)[i]
                < #[trigger] group_from(n, s, pos)[j],
        forall|i: int|
            0 <= i < group_from(n, s, pos).len() ==> (#[trigger] group_from(n, s, pos)[i]) % s
                == pos % s,
        forall|q: int|
            pos <= q < n && q % s == pos % s ==> #[trigger] group_from(n, s, pos).contains(q),
    decreases n - pos,
{
    lemma_group_from_bounds(n, s, pos);
    let g = group_from(n, s, pos);
    if pos >= n {
    } else if pos + s >= n {
        assert forall|q: int| pos <= q < n && q % s == pos % s implies #[trigger] g.contains(q) by {
            if q > pos {
                lemma_same_residue_gap(pos, q, s);
            }
            assert(g[0] == q);
        }
    } else {
        let rest = group_from(n, s, pos + s);
        lemma_group_from_facts(n, s, pos + s);
        lemma_group_from_bounds(n, s, pos + s);
        vstd::arithmetic::div_mod::lemma_mod_add_multiples_vanish(pos, s);
        assert(g =~= seq![pos] + rest);
        assert forall|i: int, j: int| 0 <= i < j < g.len() implies #[trigger] g[i] < #[trigger] g[j] by {
            assert(g[j] == rest[j - 1]);
            if i > 0 {
                assert(g[i] == rest[i - 1]);
            }
        }
        assert forall|i: int| 0 <= i < g.len() implies (#[trigger] g[i]) % s == pos % s by {
            if i > 0 {
                assert(g[i] == rest[i - 1]);
            }
        }
        assert forall|q: int| pos <= q < n && q % s == pos % s implies #[trigger] g.contains(q) by {
            if q == pos {
                assert(g[0] == q);
            } else {
                lemma_same_residue_gap(pos, q, s);
                assert(rest.contains(q));
                let k = rest.index_of(q);
                assert(g[k + 1] == q);
            }
        }
    }
}

/// Concatenating two duplicate-free sequences with no common element gives a
/// duplicate-free sequence.
proof fn lemma_concat_no_duplicates(a: Seq<int>, b: Seq<int>)
    requires
        a.no_duplicates(),
        b.no_duplicates(),
        forall|x: int| a.contains(x) ==> !b.contains(x),
    ensures
        (a + b).no_duplicates(),
{
    let c = a + b;
    assert forall|i: int, j: int| 0 <= i < c.len() && 0 <= j < c.len() && i != j implies c[i]
        != c[j] by {
        if i < a.len() && j >= a.len() {
            assert(a.contains(c[i]));
            assert(b[j - a.len()] == c[j]);
            assert(b.contains(c[j]));
        } else if j < a.len() && i >= a.len() {
            assert(a.contains(c[j]));
            assert(b[i - a.len()] == c[i]);
            assert(b.contains(c[i]));
        } else if i >= a.len() && j >= a.len() {
            assert(b[i - a.len()] == c[i]);
            assert(b[j - a.len()] == c[j]);
        }
    }
}

/// The modulo-group walk from `offset` visits exactly the positions of `0..n`
/// whose residue modulo `s` is at least `offset`, each once.
#[verifier::spinoff_prover]
#[verifier::rlimit(40)]
proof fn lemma_skip_row_order_facts(n: int, s: int, offset: int, prev: Option<int>)
    requires
        0 < s,
        0 <= offset <= s,
    ensures
        skip_row_order(n, s, offset, prev).no_duplicates(),
        forall|i: int|
            0 <= i < skip_row_order(n, s, offset, prev).len() ==> 0 <= #[trigger] skip_row_order(
                n,
                s,
                offset,
                prev,
            )[i] < n && skip_row_order(n, s, offset, prev)[i] % s >= offset,
        forall|q: int|
            0 <= q < n && q % s >= offset ==> #[trigger] skip_row_order(n, s, offset, prev).contains(q),
    decreases s - offset,
{
    let r = skip_row_order(n, s, offset, prev);
    if offset >= s {
        assert forall|q: int| 0 <= q < n && q % s >= offset implies #[trigger] r.contains(q) by {
            vstd::arithmetic::div_mod::lemma_mod_bound(q, s);
        }
    } else {
        let g = group_from(n, s, offset);
        lemma_group_from_facts(n, s, offset);
        lemma_group_from_bounds(n, s, offset);
        vstd::arithmetic::div_mod::lemma_small_mod(offset as nat, s as nat);
        assert forall|q: int| 0 <= q < n && q % s == offset implies #[trigger] g.contains(q) by {
            vstd::arithmetic::div_mod::lemma_fundamental_div_mod(q, s);
            assert(q >= offset) by (nonlinear_arith)
                requires
                    q == s * (q / s) + q % s,
                    q % s == offset,
                    q >= 0,
                    s > 0,
            {
                if q / s < 0 {
                    assert(s * (q / s) <= -s);
                }
            }
        }
        if g.len() == 0 {
            lemma_skip_row_order_facts(n, s, offset + 1, prev);
            assert forall|q: int| 0 <= q < n && q % s >= offset implies #[trigger] r.contains(q) by {
                if q % s == offset {
                    assert(g.contains(q));
                }
            }
        } else {
            let ordered = if walk_group_backwards(prev, g.first(), g.last(), s) {
                g.reverse()
            } else {
                g
            };
            let rest = skip_row_order(n, s, offset + 1, Some(ordered.last()));
            lemma_skip_row_order_facts(n, s, offset + 1, Some(ordered.last()));
            assert(r == ordered + rest);
            assert(ordered.len() == g.len());
            assert(forall|i: int|
                0 <= i < ordered.len() ==> exists|j: int|
                    0 <= j < g.len() && #[trigger] ordered[i] == g[j]) by {
                assert forall|i: int| 0 <= i < ordered.len() implies exists|j: int|
                    0 <= j < g.len() && #[trigger] ordered[i] == g[j] by {
                    if walk_group_backwards(prev, g.first(), g.last(), s) {
                        assert(ordered[i] == g[g.len() - 1 - i]);
                    } else {
                        assert(ordered[i] == g[i]);
                    }
                }
            }
            assert(ordered.no_duplicates()) by {
                assert forall|i: int, j: int|
                    0 <= i < ordered.len() && 0 <= j < ordered.len() && i != j implies ordered[i]
                    != ordered[j] by {
                    if walk_group_backwards(prev, g.first(), g.last(), s) {
                        assert(ordered[i] == g[g.len() - 1 - i]);
                        assert(ordered[j] == g[g.len() - 1 - j]);
                        if g.len() - 1 - i < g.len() - 1 - j {
                            assert(g[g.len() - 1 - i] < g[g.len() - 1 - j]);
                        } else {
                            assert(g[g.len() - 1 - j] < g[g.len() - 1 - i]);
                        }
                    } else {
                        if i < j {
                            assert(g[i] < g[j]);
                        } else {
                            assert(g[j] < g[i]);
                        }
                    }
                }
            }
            assert forall|x: int| ordered.contains(x) implies !rest.contains(x) by {
                let i = ordered.index_of(x);
                let j = choose|j: int| 0 <= j < g.len() && ordered[i] == g[j];
                assert(g[j] % s == offset);
                if rest.contains(x) {
                    let k = rest.index_of(x);
                    assert(rest[k] % s >= offset + 1);
                }
            }
            lemma_concat_no_duplicates(ordered, rest);
            assert forall|i: int| 0 <= i < r.len() implies 0 <= #[trigger] r[i] < n && r[i] % s
                >= offset by {
                if i < ordered.len() {
                    let j = choose|j: int| 0 <= j < g.len() && ordered[i] == g[j];
                    assert(g[j] % s == offset);
                } else {
                    assert(r[i] == rest[i - ordered.len()]);
                }
            }
            assert forall|q: int| 0 <= q < n && q % s >= offset implies #[trigger] r.contains(q) by {
                if q % s == offset {
                    assert(g.contains(q));
                    let j = choose|j: int| 0 <= j < g.len() && g[j] == q;
                    if walk_group_backwards(prev, g.first(), g.last(), s) {
                        assert(ordered[g.len() - 1 - j] == q);
                        assert(r[g.len() - 1 - j] == q);
                    } else {
                        assert(r[j] == q);
                    }
                } else {
                    assert(rest.contains(q));
                    let k = choose|k: int| 0 <= k < rest.len() && rest[k] == q;
                    assert(r[ordered.len() + k] == q);
                }
            }
        }
    }
}

/// Row skipping never loses or repeats a row: the visiting order is a
/// permutation of the canonical positions, for every stride.
pub proof fn lemma_skip_row_positions_permutation(n: int, stride: int)
    requires
        0 <= n,
    ensures
        is_index_permutation(skip_row_positions(n, stride), n),
{
    let p = skip_row_positions(n, stride);
    if stride <= 1 {
        assert forall|q: int| 0 <= q < n implies #[trigger] p.contains(q) by {
            assert(p[q] == q);
        }
        lemma_distinct_cover_is_permutation(p, n);
    } else {
        lemma_skip_row_order_facts(n, stride, 0, None);
        assert forall|q: int| 0 <= q < n implies #[trigger] p.contains(q) by {
            vstd::arithmetic::div_mod::lemma_mod_bound(q, stride);
        }
        lemma_distinct_cover_is_permutation(p, n);
    }
}

/// With stride 0 or 1 the canonical order is kept unchanged.
pub proof fn lemma_skip_rows_unit_stride_is_identity(n: int, stride: int)
    requires
        0 <= n,
        stride <= 1,
    ensures
        skip_row_positions(n, stride) == Seq::new(n as nat, |i: int| i),
{
}

/// Positions visited by the spiral walk over `left..=right`: alternately the
/// outermost remaining row on the left and on the right, starting on the left
/// when `take_left` holds.
pub open spec fn spiral_from(left: int, right: int, take_left: bool) -> Seq<int>
    decreases right - left + 1,
{
    if left > right {
        Seq::empty()
    } else if take_left {
        seq![left] + spiral_from(left + 1, right, false)
    } else {
        seq![right] + spiral_from(left, right - 1, true)
    }
}

/// Walk the canonical row list from the outside in: first row, last row,
/// second row, second-to-last row, ... (`start_left`), or the mirror image
/// starting with the last row. The caller decides `start_left` by comparing
/// the start point's distance to the two outermost rows.
pub fn spiral_indices(indices: Vec<usize>, start_left: bool) -> (out: Vec<usize>)
    ensures
        out@ == pick(indices@, spiral_from(0, indices.len() - 1, start_left)),
{
    let n = indices.len();
    let mut out: Vec<usize> = Vec::new();
    if n == 0 {
        assert(out@ =~= pick(indices@, spiral_from(0, indices.len() - 1, start_left)));
        return out;
    }
    let ghost full = spiral_from(0, n - 1, start_left);
    let ghost mut visited: Seq<int> = Seq::empty();
    let mut left: usize = 0;
    let mut right: usize = n - 1;
    let mut take_left = start_left;
    while left <= right
        invariant_except_break
            visited + spiral_from(left as int, right as int, take_left) == full,
            out@ == pick(indices@, visited),
        invariant
            n == indices.len(),
            right < n,
            left <= n,
        ensures
            visited == full,
            out@ == pick(indices@, visited),
        decreases right - left + 1,
    {
        if take_left {
            proof {
                assert(visited.push(left as int) + spiral_from(left + 1, right as int, false)
                    =~= visited + spiral_from(left as int, right as int, take_left));
                visited = visited.push(left as int);
            }
            out.push(indices[left]);
            assert(out@ =~= pick(indices@, visited));
            left = left + 1;
        } else {
            proof {
                assert(visited.push(right as int) + spiral_from(left as int, right - 1, true)
                    =~= visited + spiral_from(left as int, right as int, take_left));
                visited = visited.push(right as int);
            }
            out.push(indices[right]);
            assert(out@ =~= pick(indices@, visited));
            if right == 0 {
                assert(spiral_from(left as int, right - 1, true) =~= Seq::<int>::empty());
                assert(visited =~= visited + spiral_from(left as int, right - 1, true));
                break;
            }
            right = right - 1;
        }
        take_left = !take_left;
    }
    proof {
        if left > right {
            assert(visited =~= visited + spiral_from(left as int, right as int, take_left));
        }
    }
    out
}

/// The spiral walk over `left..=right` visits every position of that range
/// exactly once.
pub proof fn lemma_spiral_from_facts(left: int, right: int, take_left: bool)
    ensures
        spiral_from(left, right, take_left).no_duplicates(),
        forall|i: int|
            0 <= i < spiral_from(left, right, take_left).len() ==> left <= #[trigger] spiral_from(
                left,
                right,
                take_left,
            )[i] <= right,
        forall|q: int| left <= q <= right ==> #[trigger] spiral_from(left, right, take_left).contains(q),
    decreases right - left + 1,
{
    let r = spiral_from(left, right, take_left);
    if left > right {
    } else {
        let (head, rest) = if take_left {
            (left, spiral_from(left + 1, right, false))
        } else {
            (right, spiral_from(left, right - 1, true))
        };
        if take_left {
            lemma_spiral_from_facts(left + 1, right, false);
        } else {
            lemma_spiral_from_facts(left, right - 1, true);
        }
        assert(r == seq![head] + rest);
        assert forall|x: int| seq![head].contains(x) implies !rest.contains(x) by {
            if rest.contains(x) {
                let k = choose|k: int| 0 <= k < rest.len() && rest[k] == x;
                assert(seq![head][0] == x);
            }
        }
        lemma_concat_no_duplicates(seq![head], rest);
        assert forall|i: int| 0 <= i < r.len() implies left <= #[trigger] r[i] <= right by {
            if i > 0 {
                assert(r[i] == rest[i - 1]);
            }
        }
        assert forall|q: int| left <= q <= right implies #[trigger] r.contains(q) by {
            if q == head {
                assert(r[0] == q);
            } else {
                assert(rest.contains(q));
                let k = choose|k: int| 0 <= k < rest.len() && rest[k] == q;
                assert(r[k + 1] == q);
            }
        }
    }
}

/// The spiral order is a permutation of the canonical positions.
pub proof fn lemma_spiral_permutation(n: int, start_left: bool)
    requires
        0 <= n,
    ensures
        is_index_permutation(spiral_from(0, n - 1, start_left), n),
{
    lemma_spiral_from_facts(0, n - 1, start_left);
    lemma_distinct_cover_is_permutation(spiral_from(0, n - 1, start_left), n);
}

/// Visiting order of the canonical rows for each pattern strategy:
/// `None` for `GreedyNearest`, which orders by distance instead.
pub open spec fn pattern_positions(strategy: RoutingStrategy, n: int, start_left: bool) -> Option<Seq<int>> {
    match strategy {
        RoutingStrategy::GreedyNearest => None,
        RoutingStrategy::Snake => Some(Seq::new(n as nat, |i: int| i)),
        RoutingStrategy::TurnRadiusAware => Some(Seq::new(n as nat, |i: int| i)),
        RoutingStrategy::Spiral => Some(spiral_from(0, n - 1, start_left)),
        RoutingStrategy::SkipRows { stride } => Some(skip_row_positions(n, stride as int)),
    }
}

/// Adjacent-row order: the canonical order itself.
pub fn snake_indices(indices: Vec<usize>) -> (out: Vec<usize>)
    ensures
        out@ == indices@,
{
    indices
}

/// Reorder the canonical row list for a pattern strategy. An unresolved
/// `TurnRadiusAware` degrades to adjacent-row order; `GreedyNearest` is not a
/// pattern and yields `None`.
pub fn pattern_order_indices(strategy: RoutingStrategy, canonical: Vec<usize>, start_left: bool) -> (out: Option<Vec<usize>>)
    ensures
        match pattern_positions(strategy, canonical.len() as int, start_left) {
            None => out is None,
            Some(p) => out matches Some(o) && o@ == pick(canonical@, p),
        },
{
    match strategy {
        RoutingStrategy::GreedyNearest => None,
        RoutingStrategy::Snake | RoutingStrategy::TurnRadiusAware => {
            let ghost c = canonical@;
            let out = snake_indices(canonical);
            assert(out@ =~= pick(c, Seq::new(c.len(), |i: int| i)));
            Some(out)
        },
        RoutingStrategy::Spiral => Some(spiral_indices(canonical, start_left)),
        RoutingStrategy::SkipRows { stride } => Some(skip_row_indices(canonical, stride)),
    }
}

/// Every pattern strategy visits each canonical row exactly once.
pub proof fn lemma_pattern_positions_permutation(strategy: RoutingStrategy, n: int, start_left: bool)
    requires
        0 <= n,
        !(strategy is GreedyNearest),
    ensures
        pattern_positions(strategy, n, start_left) matches Some(p) && is_index_permutation(p, n),
{
    match strategy {
        RoutingStrategy::Spiral => lemma_spiral_permutation(n, start_left),
        RoutingStrategy::SkipRows { stride } => lemma_skip_row_positions_permutation(n, stride as int),
        _ => lemma_skip_row_positions_permutation(n, 1),
    }
}

/// One element of a traversal with its connectors: a routed work row, or the
/// straight connector from routed row `from` to routed row `to`.
#[derive(Debug, Clone, Copy, PartialEq, Eq, Structural)]
pub enum TraversalStep {
    Work(usize),
    Connection(usize, usize),
}

/// Step `i` of the connector-augmented traversal of `count` rows.
pub open spec fn augmented_step(i: int) -> TraversalStep {
    if i % 2 == 0 {
        TraversalStep::Work((i / 2) as usize)
    } else {
        TraversalStep::Connection((i / 2) as usize, (i / 2 + 1) as usize)
    }
}

/// Interleave routed work rows with connectors: row 0, connector 0 to 1,
/// row 1, connector 1 to 2, ..., ending with the last row.
pub fn connection_augmented_steps(count: usize) -> (out: Vec<TraversalStep>)
    requires
        count <= usize::MAX / 2,
    ensures
        out.len() == if count == 0 { 0 } else { 2 * count - 1 },
        forall|i: int| 0 <= i < out.len() ==> #[trigger] out@[i] == augmented_step(i),
{
    let mut out: Vec<TraversalStep> = Vec::new();
    let mut k: usize = 0;
    while k < count
        invariant
            count <= usize::MAX / 2,
            k <= count,
            out.len() == if k == 0 { 0 } else { 2 * k - 1 },
            forall|i: int| 0 <= i < out.len() ==> #[trigger] out@[i] == augmented_step(i),
        decreases count - k,
    {
        if k > 0 {
            out.push(TraversalStep::Connection(k - 1, k));
            assert(out@[2 * k - 1] == augmented_step(2 * k - 1));
        }
        out.push(TraversalStep::Work(k));
        assert(out@[2 * k as int] == augmented_step(2 * k as int));
        k = k + 1;
    }
    out
}

} // verus!
