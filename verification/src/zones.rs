use vstd::prelude::*;

use crate::tour::wrap;

verus! {

/// Number of consecutive edges from edge `a` that lie in the zone of edge `a`.
pub open spec fn run_len(zs: Seq<usize>, a: int) -> int
    decreases zs.len() - a,
{
    if a < 0 || a >= zs.len() {
        0
    } else if a + 1 < zs.len() && zs[a + 1] == zs[a] {
        1 + run_len(zs, a + 1)
    } else {
        1
    }
}

/// Whether edge `i` opens a run: the first edge, or a change of zone.
pub open spec fn is_run_start(zs: Seq<usize>, i: int) -> bool {
    i == 0 || zs[i] != zs[i - 1]
}

/// Vertices of the arc covering `len` edges from edge `a` of a ring of `m`
/// edges (edge `i` runs from vertex `i` to vertex `i + 1`, wrapping).
pub open spec fn run_arc(m: int, a: int, len: int) -> Seq<usize> {
    Seq::new((len + 1) as nat, |j: int| wrap(a + j, m) as usize)
}

/// Arcs of zone `zone` among the runs opened by edges `0..k`, in walking order.
pub open spec fn zone_arcs_upto(zs: Seq<usize>, zone: usize, k: int) -> Seq<Seq<usize>>
    decreases k,
{
    if k <= 0 {
        Seq::empty()
    } else {
        zone_arcs_upto(zs, zone, k - 1) + if is_run_start(zs, k - 1) && zs[k - 1] == zone {
            seq![run_arc(zs.len() as int, k - 1, run_len(zs, k - 1))]
        } else {
            Seq::empty()
        }
    }
}

/// Views of a list of arcs.
pub open spec fn arc_views(arcs: Seq<Vec<usize>>) -> Seq<Seq<usize>> {
    arcs.map_values(|a: Vec<usize>| a@)
}

proof fn lemma_run_len_scan(zs: Seq<usize>, a: int, j: int)
    requires
        0 <= a < j <= zs.len(),
        forall|t: int| a <= t < j ==> #[trigger] zs[t] == zs[a],
        j == zs.len() || zs[j] != zs[a],
    ensures
        run_len(zs, a) == j - a,
    decreases j - a,
{
    if a + 1 < j {
        assert(zs[a + 1] == zs[a]);
        lemma_run_len_scan(zs, a + 1, j);
    }
}

/// Split a ring walk into arcs by zone. `edge_zones[i]` is the zone of ring
/// edge `i`, from vertex `i` to vertex `i + 1` (the last edge closes the ring
/// at vertex 0). Consecutive edges of one zone form one arc, listed by its
/// vertices; each zone gets its arcs in walking order, starting at edge 0.
/// A ring of fewer than two edges yields no arcs.
pub fn zone_arcs(edge_zones: &Vec<usize>, zone_count: usize) -> (out: Vec<Vec<Vec<usize>>>)
    requires
        forall|i: int| 0 <= i < edge_zones.len() ==> #[trigger] edge_zones[i] < zone_count,
    ensures
        out.len() == zone_count,
        edge_zones.len() < 2 ==> forall|z: int| 0 <= z < zone_count ==> #[trigger] out[z].len() == 0,
        edge_zones.len() >= 2 ==> forall|z: int|
            0 <= z < zone_count ==> #[trigger] arc_views(out[z]@) == zone_arcs_upto(
                edge_zones@,
                z as usize,
                edge_zones.len() as int,
            ),
{
    let m = edge_zones.len();
    let ghost zs = edge_zones@;
    let mut out: Vec<Vec<Vec<usize>>> = Vec::new();
    let mut z: usize = 0;
    while z < zone_count
        invariant
            z <= zone_count,
            out.len() == z,
            forall|y: int| 0 <= y < z ==> #[trigger] out[y].len() == 0,
        decreases zone_count - z,
    {
        out.push(Vec::new());
        z = z + 1;
    }
    if m < 2 {
        return out;
    }
    assert forall|y: int| 0 <= y < zone_count implies #[trigger] arc_views(out[y]@) == zone_arcs_upto(zs, y as usize, 0) by {
        assert(out[y].len() == 0);
        assert(arc_views(out[y]@) =~= Seq::<Seq<usize>>::empty());
    }
    let mut i: usize = 0;
    while i < m
        invariant
            m == edge_zones.len(),
            zs == edge_zones@,
            m >= 2,
            i <= m,
            out.len() == zone_count,
            forall|t: int| 0 <= t < m ==> #[trigger] edge_zones[t] < zone_count,
            forall|y: int| 0 <= y < zone_count ==> #[trigger] arc_views(out[y]@) == zone_arcs_upto(zs, y as usize, i as int),
        decreases m - i,
    {
        let zone = edge_zones[i];
        let ghost before = out@;
        if i == 0 || edge_zones[i] != edge_zones[i - 1] {
            let mut j: usize = i + 1;
            while j < m && edge_zones[j] == zone
                invariant
                    m == edge_zones.len(),
                    i < j <= m,
                    zone == edge_zones[i as int],
                    forall|t: int| i <= t < j ==> #[trigger] edge_zones[t] == zone,
                decreases m - j,
            {
                j = j + 1;
            }
            proof {
                lemma_run_len_scan(zs, i as int, j as int);
            }
            let mut arc: Vec<usize> = Vec::new();
            let mut v: usize = i;
            while v < j
                invariant
                    i < j <= m,
                    i <= v <= j,
                    arc@ == Seq::new((v - i) as nat, |t: int| wrap(i + t, m as int) as usize),
                decreases j - v,
            {
                arc.push(v);
                assert(arc@ =~= Seq::new((v + 1 - i) as nat, |t: int| wrap(i + t, m as int) as usize));
                v = v + 1;
            }
            let end: usize = if j == m { 0 } else { j };
            arc.push(end);
            assert(arc@ =~= Seq::new((j + 1 - i) as nat, |t: int| wrap(i + t, m as int) as usize));
            assert(arc@ =~= run_arc(m as int, i as int, run_len(zs, i as int)));
            let mut bucket: Vec<Vec<usize>> = Vec::new();
            std::mem::swap(&mut bucket, &mut out[zone]);
            bucket.push(arc);
            out.set(zone, bucket);
            assert forall|y: int| 0 <= y < zone_count implies #[trigger] arc_views(out[y]@) == zone_arcs_upto(zs, y as usize, i + 1) by {
                if y == zone as int {
                    assert(arc_views(out[y]@) =~= arc_views(before[y]@).push(run_arc(m as int, i as int, run_len(zs, i as int))));
                } else {
                    assert(out[y] == before[y]);
                }
            }
        } else {
            assert forall|y: int| 0 <= y < zone_count implies #[trigger] arc_views(out[y]@) == zone_arcs_upto(zs, y as usize, i + 1) by {
                assert(zone_arcs_upto(zs, y as usize, i + 1) =~= zone_arcs_upto(zs, y as usize, i as int));
            }
        }
        i = i + 1;
    }
    out
}

/// Arc `arc` drives ring edge `i` of a ring of `m` edges: it passes from
/// vertex `i` straight on to the next vertex.
pub open spec fn arc_covers(arc: Seq<usize>, m: int, i: int) -> bool {
    exists|j: int| #![trigger arc[j]] 0 <= j < arc.len() - 1 && arc[j] == i && arc[j + 1] == wrap(i + 1, m)
}

/// Some arc of the zone of edge `i` drives edge `i`.
pub open spec fn driven_in_own_zone(zs: Seq<usize>, i: int) -> bool {
    exists|p: int|
        0 <= p < zone_arcs_upto(zs, zs[i], zs.len() as int).len() && #[trigger] arc_covers(
            zone_arcs_upto(zs, zs[i], zs.len() as int)[p],
            zs.len() as int,
            i,
        )
}

/// First edges of the runs of zone `zone` among edges `0..k`, in order.
pub open spec fn zone_run_starts(zs: Seq<usize>, zone: usize, k: int) -> Seq<int>
    decreases k,
{
    if k <= 0 {
        Seq::empty()
    } else {
        zone_run_starts(zs, zone, k - 1) + if is_run_start(zs, k - 1) && zs[k - 1] == zone {
            seq![k - 1]
        } else {
            Seq::empty()
        }
    }
}

/// A run from edge `a` is nonempty, stays inside the ring's edge list, keeps
/// one zone, and ends where the zone changes or the edges end.
proof fn lemma_run_facts(zs: Seq<usize>, a: int)
    requires
        0 <= a < zs.len(),
    ensures
        1 <= run_len(zs, a) <= zs.len() - a,
        forall|t: int| a <= t < a + run_len(zs, a) ==> #[trigger] zs[t] == zs[a],
        a + run_len(zs, a) < zs.len() ==> zs[a + run_len(zs, a)] != zs[a],
    decreases zs.len() - a,
{
    if a + 1 < zs.len() && zs[a + 1] == zs[a] {
        lemma_run_facts(zs, a + 1);
    }
}

/// The arcs of a zone are the runs of that zone, in order of their first edge.
proof fn lemma_zone_arcs_are_runs(zs: Seq<usize>, zone: usize, k: int)
    requires
        0 <= k <= zs.len(),
    ensures
        zone_arcs_upto(zs, zone, k).len() == zone_run_starts(zs, zone, k).len(),
        forall|p: int|
            0 <= p < zone_run_starts(zs, zone, k).len() ==> {
                let a = #[trigger] zone_run_starts(zs, zone, k)[p];
                &&& 0 <= a < k
                &&& is_run_start(zs, a)
                &&& zs[a] == zone
                &&& zone_arcs_upto(zs, zone, k)[p] == run_arc(zs.len() as int, a, run_len(zs, a))
            },
        forall|p1: int, p2: int|
            0 <= p1 < p2 < zone_run_starts(zs, zone, k).len() ==> #[trigger] zone_run_starts(zs, zone, k)[p1]
                < #[trigger] zone_run_starts(zs, zone, k)[p2],
        forall|a: int|
            0 <= a < k && #[trigger] is_run_start(zs, a) && zs[a] == zone ==> zone_run_starts(zs, zone, k).contains(a),
    decreases k,
{
    if k > 0 {
        lemma_zone_arcs_are_runs(zs, zone, k - 1);
        let prev = zone_run_starts(zs, zone, k - 1);
        let cur = zone_run_starts(zs, zone, k);
        assert forall|a: int| 0 <= a < k && #[trigger] is_run_start(zs, a) && zs[a] == zone implies cur.contains(a) by {
            if a < k - 1 {
                assert(prev.contains(a));
                let p = choose|p: int| 0 <= p < prev.len() && prev[p] == a;
                assert(cur[p] == a);
            } else {
                assert(cur[cur.len() - 1] == a);
            }
        }
    }
}

/// Every edge lies in the run of the last run start at or before it.
proof fn lemma_edge_run(zs: Seq<usize>, i: int) -> (s: int)
    requires
        0 <= i < zs.len(),
    ensures
        0 <= s <= i,
        is_run_start(zs, s),
        i < s + run_len(zs, s),
    decreases i,
{
    lemma_run_facts(zs, 0);
    if i == 0 || is_run_start(zs, i) {
        lemma_run_facts(zs, i);
        i
    } else {
        let s = lemma_edge_run(zs, i - 1);
        lemma_run_facts(zs, s);
        if i == s + run_len(zs, s) {
            assert(zs[i - 1] == zs[s]);
        }
        s
    }
}

/// The arc of a run drives exactly the run's edges.
proof fn lemma_run_arc_covers(m: int, a: int, len: int, i: int)
    requires
        0 <= a,
        1 <= len,
        a + len <= m <= usize::MAX,
        0 <= i < m,
    ensures
        arc_covers(run_arc(m, a, len), m, i) <==> a <= i < a + len,
{
    let arc = run_arc(m, a, len);
    if a <= i < a + len {
        let j = i - a;
        assert(arc[j] == i);
        assert(arc[j + 1] == wrap(i + 1, m));
    }
    if arc_covers(arc, m, i) {
        let j = choose|j: int| #![trigger arc[j]] 0 <= j < arc.len() - 1 && arc[j] == i && arc[j + 1] == wrap(i + 1, m);
        assert(arc[j] == a + j);
    }
}

/// The arc at position `p` of zone `z` drives edge `i` exactly when `i` lies
/// in the run it was made from, whose edges all have zone `z`.
proof fn lemma_zone_arc_covers(zs: Seq<usize>, z: usize, p: int, i: int)
    requires
        2 <= zs.len() <= usize::MAX,
        0 <= p < zone_run_starts(zs, z, zs.len() as int).len(),
        0 <= i < zs.len(),
    ensures
        ({
            let m = zs.len() as int;
            let a = zone_run_starts(zs, z, m)[p];
            &&& 0 <= a < m
            &&& is_run_start(zs, a)
            &&& zs[a] == z
            &&& zone_arcs_upto(zs, z, m).len() == zone_run_starts(zs, z, m).len()
            &&& (arc_covers(zone_arcs_upto(zs, z, m)[p], m, i) <==> a <= i < a + run_len(zs, a))
            &&& (a <= i < a + run_len(zs, a) ==> zs[i] == z)
        }),
{
    let m = zs.len() as int;
    lemma_zone_arcs_are_runs(zs, z, m);
    let a = zone_run_starts(zs, z, m)[p];
    lemma_run_facts(zs, a);
    lemma_run_arc_covers(m, a, run_len(zs, a), i);
}

/// Splitting a ring by zone loses no edge and drives none twice: each edge
/// `i` is driven by one arc of its own zone `edge_zones[i]`, and by no other
/// arc of any zone.
pub proof fn lemma_zone_arcs_cover_each_edge_once(zs: Seq<usize>, zone_count: int)
    requires
        2 <= zs.len() <= usize::MAX,
        forall|i: int| 0 <= i < zs.len() ==> #[trigger] zs[i] < zone_count,
    ensures
        forall|i: int| 0 <= i < zs.len() ==> #[trigger] driven_in_own_zone(zs, i),
        forall|i: int, z: usize, p: int|
            0 <= i < zs.len() && 0 <= p < zone_arcs_upto(zs, z, zs.len() as int).len() && #[trigger] arc_covers(
                zone_arcs_upto(zs, z, zs.len() as int)[p],
                zs.len() as int,
                i,
            ) ==> z == zs[i],
        forall|i: int, z: usize, p1: int, p2: int|
            0 <= i < zs.len() && 0 <= p1 < zone_arcs_upto(zs, z, zs.len() as int).len() && 0 <= p2
                < zone_arcs_upto(zs, z, zs.len() as int).len() && #[trigger] arc_covers(
                zone_arcs_upto(zs, z, zs.len() as int)[p1],
                zs.len() as int,
                i,
            ) && #[trigger] arc_covers(zone_arcs_upto(zs, z, zs.len() as int)[p2], zs.len() as int, i) ==> p1 == p2,
{
    let m = zs.len() as int;
    assert forall|i: int| 0 <= i < m implies #[trigger] driven_in_own_zone(zs, i) by {
        let s = lemma_edge_run(zs, i);
        lemma_run_facts(zs, s);
        let z = zs[i];
        lemma_zone_arcs_are_runs(zs, z, m);
        assert(zs[s] == z);
        assert(zone_run_starts(zs, z, m).contains(s));
        let p = choose|p: int| 0 <= p < zone_run_starts(zs, z, m).len() && zone_run_starts(zs, z, m)[p] == s;
        assert(zone_run_starts(zs, z, m)[p] == s);
        lemma_zone_arc_covers(zs, z, p, i);
        assert(arc_covers(zone_arcs_upto(zs, z, m)[p], m, i));
    }
    assert forall|i: int, z: usize, p: int|
        0 <= i < m && 0 <= p < zone_arcs_upto(zs, z, m).len() && #[trigger] arc_covers(zone_arcs_upto(zs, z, m)[p], m, i)
            implies z == zs[i] by {
        lemma_zone_arcs_are_runs(zs, z, m);
        lemma_zone_arc_covers(zs, z, p, i);
    }
    assert forall|i: int, z: usize, p1: int, p2: int|
        0 <= i < m && 0 <= p1 < zone_arcs_upto(zs, z, m).len() && 0 <= p2 < zone_arcs_upto(zs, z, m).len()
            && #[trigger] arc_covers(zone_arcs_upto(zs, z, m)[p1], m, i) && #[trigger] arc_covers(
            zone_arcs_upto(zs, z, m)[p2],
            m,
            i,
        ) implies p1 == p2 by {
        lemma_zone_arcs_are_runs(zs, z, m);
        lemma_zone_arc_covers(zs, z, p1, i);
        lemma_zone_arc_covers(zs, z, p2, i);
        let a1 = zone_run_starts(zs, z, m)[p1];
        let a2 = zone_run_starts(zs, z, m)[p2];
        assert(a1 <= i < a1 + run_len(zs, a1));
        assert(a2 <= i < a2 + run_len(zs, a2));
        lemma_run_facts(zs, a1);
        lemma_run_facts(zs, a2);
        if a1 < a2 {
            assert(zs[a2] == zs[a1]);
            assert(zs[a2 - 1] == zs[a1]);
        } else if a2 < a1 {
            assert(zs[a1] == zs[a2]);
            assert(zs[a1 - 1] == zs[a2]);
        }
        if p1 < p2 {
            assert(a1 < a2);
        } else if p2 < p1 {
            assert(a2 < a1);
        }
    }
}

/// A sequence without its first element (empty stays empty).
pub open spec fn after_first(s: Seq<usize>) -> Seq<usize> {
    if s.len() == 0 { s } else { s.subrange(1, s.len() as int) }
}

/// Join a zone's first arc onto its last: used when the walk started inside a
/// run that wraps past edge 0, so the last arc ends where the first begins.
/// The first arc is removed and its vertices after the first are appended to
/// the last arc.
pub fn merge_wrapped_arc(arcs: &mut Vec<Vec<usize>>)
    requires
        old(arcs).len() >= 2,
    ensures
        final(arcs).len() == old(arcs).len() - 1,
        forall|k: int| 0 <= k < final(arcs).len() - 1 ==> #[trigger] final(arcs)[k] == old(arcs)[k + 1],
        final(arcs)[final(arcs).len() - 1]@ == old(arcs)[old(arcs).len() - 1]@ + after_first(old(arcs)[0]@),
{
    let first = arcs.remove(0);
    let last_index = arcs.len() - 1;
    let mut last: Vec<usize> = Vec::new();
    std::mem::swap(&mut last, &mut arcs[last_index]);
    let ghost last_before = last@;
    if first.len() > 0 {
        let mut k: usize = 1;
        while k < first.len()
            invariant
                1 <= k <= first.len(),
                last@ == last_before + first@.subrange(1, k as int),
            decreases first.len() - k,
        {
            last.push(first[k]);
            assert(first@.subrange(1, k + 1) =~= first@.subrange(1, k as int).push(first@[k as int]));
            k = k + 1;
        }
    } else {
        assert(last@ =~= last_before + after_first(first@));
    }
    arcs.set(last_index, last);
}

/// An arc of headland ring `ring`, by the ring's vertex indices.
#[derive(Debug, Clone, PartialEq, Eq)]
pub struct RingArc {
    pub ring: usize,
    pub vertices: Vec<usize>,
}

/// A ring arc as plain values.
pub open spec fn ring_arc_view(a: RingArc) -> (usize, Seq<usize>) {
    (a.ring, a.vertices@)
}

/// Views of a list of ring arcs.
pub open spec fn ring_arc_views(s: Seq<RingArc>) -> Seq<(usize, Seq<usize>)> {
    s.map_values(|a: RingArc| ring_arc_view(a))
}

/// Views of the per-zone arc lists of one ring.
pub open spec fn zone_views(zones: Seq<Vec<Vec<usize>>>) -> Seq<Seq<Seq<usize>>> {
    zones.map_values(|z: Vec<Vec<usize>>| arc_views(z@))
}

/// Arcs tagged with the ring they belong to.
pub open spec fn tag(ring: usize, arcs: Seq<Seq<usize>>) -> Seq<(usize, Seq<usize>)> {
    arcs.map_values(|a: Seq<usize>| (ring, a))
}

/// What machine `k` receives from one ring's zones `0..upto`: the arcs of
/// every zone it owns (`order[z] == k`), zone by zone.
pub open spec fn ring_share(order: Seq<usize>, zones: Seq<Seq<Seq<usize>>>, ring: usize, k: usize, upto: int) -> Seq<(usize, Seq<usize>)>
    decreases upto,
{
    if upto <= 0 {
        Seq::empty()
    } else {
        ring_share(order, zones, ring, k, upto - 1) + if order[upto - 1] == k {
            tag(ring, zones[upto - 1])
        } else {
            Seq::empty()
        }
    }
}

/// What machine `k` receives from rings `0..upto`.
pub open spec fn rings_share(order: Seq<usize>, rings: Seq<Seq<Seq<Seq<usize>>>>, k: usize, upto: int) -> Seq<(usize, Seq<usize>)>
    decreases upto,
{
    if upto <= 0 {
        Seq::empty()
    } else {
        rings_share(order, rings, k, upto - 1) + ring_share(order, rings[upto - 1], (upto - 1) as usize, k, order.len() as int)
    }
}

/// The closed walk around a ring of `n` vertices: `0, 1, ..., n - 1, 0`.
pub open spec fn closed_walk(n: int) -> Seq<usize> {
    Seq::new((n + 1) as nat, |j: int| if j == n { 0usize } else { j as usize })
}

/// Whole rings `0..upto` as closed walks, skipping rings without vertices.
pub open spec fn whole_rings(counts: Seq<usize>, upto: int) -> Seq<(usize, Seq<usize>)>
    decreases upto,
{
    if upto <= 0 {
        Seq::empty()
    } else {
        whole_rings(counts, upto - 1) + if counts[upto - 1] >= 1 {
            seq![((upto - 1) as usize, closed_walk(counts[upto - 1] as int))]
        } else {
            Seq::empty()
        }
    }
}

/// Headland arcs of machine `k` when rings are split by zone: nothing without
/// an active machine; every ring whole for the only active machine; otherwise
/// the arcs of the zones it owns, ring by ring.
pub open spec fn zone_split_share(
    order: Seq<usize>,
    counts: Seq<usize>,
    rings: Seq<Seq<Seq<Seq<usize>>>>,
    k: usize,
) -> Seq<(usize, Seq<usize>)> {
    if order.len() == 0 {
        Seq::empty()
    } else if order.len() == 1 {
        if order[0] == k { whole_rings(counts, counts.len() as int) } else { Seq::empty() }
    } else {
        rings_share(order, rings, k, rings.len() as int)
    }
}

/// The closed walk around a ring of `n` vertices.
fn closed_ring_walk(n: usize) -> (out: Vec<usize>)
    ensures
        out@ == closed_walk(n as int),
{
    let mut out: Vec<usize> = Vec::new();
    let mut v: usize = 0;
    while v < n
        invariant
            v <= n,
            out@ == Seq::new(v as nat, |j: int| j as usize),
        decreases n - v,
    {
        out.push(v);
        assert(out@ =~= Seq::new((v + 1) as nat, |j: int| j as usize));
        v = v + 1;
    }
    out.push(0);
    assert(out@ =~= closed_walk(n as int));
    out
}

/// Add one ring's zone arcs to the machines that own the zones.
fn hand_out_ring(result: &mut Vec<Vec<RingArc>>, order: &Vec<usize>, ring: usize, zones: Vec<Vec<Vec<usize>>>)
    requires
        order.len() == zones.len(),
        forall|z: int| 0 <= z < order.len() ==> #[trigger] order[z] < old(result).len(),
    ensures
        final(result).len() == old(result).len(),
        forall|k: int|
            0 <= k < old(result).len() ==> #[trigger] ring_arc_views(final(result)[k]@) == ring_arc_views(old(result)[k]@)
                + ring_share(order@, zone_views(zones@), ring, k as usize, order.len() as int),
{
    let ghost start = result@;
    let ghost zv = zone_views(zones@);
    let mut zones = zones;
    let n = result.len();
    let mut z: usize = 0;
    while z < order.len()
        invariant
            order.len() == zones.len(),
            n == result.len(),
            n == start.len(),
            zv.len() == order.len(),
            forall|y: int| 0 <= y < order.len() ==> #[trigger] order[y] < n,
            forall|y: int| z <= y < order.len() ==> #[trigger] arc_views(zones[y]@) == zv[y],
            z <= order.len(),
            forall|k: int|
                0 <= k < n ==> #[trigger] ring_arc_views(result[k]@) == ring_arc_views(start[k]@) + ring_share(
                    order@,
                    zv,
                    ring,
                    k as usize,
                    z as int,
                ),
        decreases order.len() - z,
    {
        let target = order[z];
        let mut arcs: Vec<Vec<usize>> = Vec::new();
        std::mem::swap(&mut arcs, &mut zones[z]);
        assert(arc_views(arcs@) == zv[z as int]);
        assert forall|t: int| 0 <= t < arcs.len() implies #[trigger] arcs[t]@ == zv[z as int][t] by {
            assert(arc_views(arcs@)[t] == arcs@[t]@);
        }
        let mut bucket: Vec<RingArc> = Vec::new();
        std::mem::swap(&mut bucket, &mut result[target]);
        let ghost bucket_start = bucket@;
        let ghost before = result@;
        let mut a: usize = 0;
        while a < arcs.len()
            invariant
                z < zv.len(),
                a <= arcs.len(),
                arcs.len() == zv[z as int].len(),
                forall|t: int| a <= t < arcs.len() ==> #[trigger] arcs[t]@ == zv[z as int][t],
                ring_arc_views(bucket@) == ring_arc_views(bucket_start) + tag(ring, zv[z as int].subrange(0, a as int)),
            decreases arcs.len() - a,
        {
            let mut arc: Vec<usize> = Vec::new();
            std::mem::swap(&mut arc, &mut arcs[a]);
            assert(arc@ == zv[z as int][a as int]);
            let ghost old_bucket = bucket@;
            let ghost piece = (ring, arc@);
            bucket.push(RingArc { ring, vertices: arc });
            assert(ring_arc_views(bucket@) =~= ring_arc_views(old_bucket).push(piece));
            assert(zv[z as int].subrange(0, a + 1) =~= zv[z as int].subrange(0, a as int).push(zv[z as int][a as int]));
            assert(tag(ring, zv[z as int].subrange(0, a + 1)) =~= tag(ring, zv[z as int].subrange(0, a as int)).push(piece));
            assert(ring_arc_views(bucket@) =~= ring_arc_views(bucket_start) + tag(ring, zv[z as int].subrange(0, a + 1)));
            a = a + 1;
        }
        assert(zv[z as int].subrange(0, arcs.len() as int) =~= zv[z as int]);
        result.set(target, bucket);
        assert forall|k: int|
            0 <= k < n implies #[trigger] ring_arc_views(result[k]@) == ring_arc_views(start[k]@) + ring_share(
                order@,
                zv,
                ring,
                k as usize,
                z + 1,
            ) by {
            if k == target as int {
                assert(ring_arc_views(result[k]@) =~= ring_arc_views(start[k]@) + ring_share(order@, zv, ring, k as usize, z + 1));
            } else {
                assert(result[k] == before[k]);
                assert(ring_arc_views(result[k]@) =~= ring_arc_views(start[k]@) + ring_share(order@, zv, ring, k as usize, z + 1));
            }
        }
        z = z + 1;
    }
}

/// Headland arcs per machine when rings are split by lateral zone.
/// `order` lists the machines that have rows, sorted by their lateral
/// position; zone `z` belongs to machine `order[z]`. `ring_vertex_counts[r]`
/// is the number of vertices of ring `r`, and `ring_zone_arcs[r][z]` the arcs
/// of ring `r` in zone `z`. With a single active machine it drives every ring
/// whole (as a closed walk); with none, no machine gets headland work.
pub fn split_rings_by_zone(
    machine_count: usize,
    order: &Vec<usize>,
    ring_vertex_counts: &Vec<usize>,
    ring_zone_arcs: Vec<Vec<Vec<Vec<usize>>>>,
) -> (out: Vec<Vec<RingArc>>)
    requires
        forall|z: int| 0 <= z < order.len() ==> #[trigger] order[z] < machine_count,
        ring_zone_arcs.len() == ring_vertex_counts.len(),
        order.len() >= 2 ==> forall|r: int| 0 <= r < ring_zone_arcs.len() ==> #[trigger] ring_zone_arcs[r].len() == order.len(),
    ensures
        out.len() == machine_count,
        forall|k: int|
            0 <= k < machine_count ==> #[trigger] ring_arc_views(out[k]@) == zone_split_share(
                order@,
                ring_vertex_counts@,
                ring_zone_arcs@.map_values(|r: Vec<Vec<Vec<usize>>>| zone_views(r@)),
                k as usize,
            ),
{
    let ghost rings = ring_zone_arcs@.map_values(|r: Vec<Vec<Vec<usize>>>| zone_views(r@));
    let mut out: Vec<Vec<RingArc>> = Vec::new();
    let mut m: usize = 0;
    while m < machine_count
        invariant
            m <= machine_count,
            out.len() == m,
            forall|k: int| 0 <= k < m ==> #[trigger] out[k]@.len() == 0,
        decreases machine_count - m,
    {
        out.push(Vec::new());
        m = m + 1;
    }
    assert forall|k: int| 0 <= k < machine_count implies #[trigger] ring_arc_views(out[k]@) =~= Seq::empty() by {
        assert(out[k]@.len() == 0);
    }
    if order.len() == 0 {
        return out;
    }
    if order.len() == 1 {
        let target = order[0];
        let mut bucket: Vec<RingArc> = Vec::new();
        let mut r: usize = 0;
        while r < ring_vertex_counts.len()
            invariant
                r <= ring_vertex_counts.len(),
                ring_arc_views(bucket@) == whole_rings(ring_vertex_counts@, r as int),
            decreases ring_vertex_counts.len() - r,
        {
            if ring_vertex_counts[r] >= 1 {
                let walk = closed_ring_walk(ring_vertex_counts[r]);
                bucket.push(RingArc { ring: r, vertices: walk });
            }
            assert(ring_arc_views(bucket@) =~= whole_rings(ring_vertex_counts@, r + 1));
            r = r + 1;
        }
        let ghost before = out@;
        out.set(target, bucket);
        assert forall|k: int|
            0 <= k < machine_count implies #[trigger] ring_arc_views(out[k]@) == zone_split_share(
                order@,
                ring_vertex_counts@,
                rings,
                k as usize,
            ) by {
            if k != target as int {
                assert(out[k] == before[k]);
            }
        }
        return out;
    }
    let mut ring_zone_arcs = ring_zone_arcs;
    let count = ring_zone_arcs.len();
    let mut r: usize = 0;
    while r < count
        invariant
            count == ring_zone_arcs.len(),
            rings.len() == count,
            order.len() >= 2,
            out.len() == machine_count,
            forall|z: int| 0 <= z < order.len() ==> #[trigger] order[z] < machine_count,
            forall|t: int| r <= t < count ==> #[trigger] ring_zone_arcs[t].len() == order.len(),
            forall|t: int| r <= t < count ==> #[trigger] zone_views(ring_zone_arcs[t]@) == rings[t],
            r <= count,
            forall|k: int| 0 <= k < machine_count ==> #[trigger] ring_arc_views(out[k]@) == rings_share(order@, rings, k as usize, r as int),
        decreases count - r,
    {
        let mut zones: Vec<Vec<Vec<usize>>> = Vec::new();
        std::mem::swap(&mut zones, &mut ring_zone_arcs[r]);
        hand_out_ring(&mut out, order, r, zones);
        r = r + 1;
    }
    out
}

} // verus!
