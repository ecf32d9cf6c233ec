use vstd::prelude::*;

use crate::field::SwathType;

verus! {

/// Turn planner used for connectors between rows.
#[derive(Debug, Clone, Copy, PartialEq, Eq, Structural)]
pub enum TurnPlannerModel {
    Auto,
    Dubins,
    ReedsShepp,
    Sharper,
}

/// How consecutive rows are joined: a direct turn at the row end, a detour
/// through the headland band, or whichever fits (`Auto`).
#[derive(Debug, Clone, Copy, PartialEq, Eq, Structural)]
pub enum ConnectorMode {
    Auto,
    Direct,
    Headland,
}

/// Policy for reconciling a requested headland count with the count the turn
/// model needs.
#[derive(Debug, Clone, Copy, PartialEq, Eq, Structural)]
pub enum HeadlandSizingPolicy {
    /// Keep the requested count; planning the field refuses a count below the
    /// required one.
    StrictUser,
    /// Keep the requested count, with a warning when it is too low.
    WarnOnly,
    /// Use `max(requested, required)`.
    AutoIncrease,
}

impl Default for HeadlandSizingPolicy {
    fn default() -> (r: Self)
        ensures
            r == HeadlandSizingPolicy::WarnOnly,
    {
        HeadlandSizingPolicy::WarnOnly
    }
}

/// A requested headland count below what the turn model needs, under the
/// strict policy.
#[derive(Debug, Clone, Copy, PartialEq, Eq, Structural)]
pub struct HeadlandShortfall {
    pub requested: usize,
    pub required: usize,
}

/// Headland count used under `policy`.
pub open spec fn effective_headlands(policy: HeadlandSizingPolicy, requested: int, required: int) -> int {
    match policy {
        HeadlandSizingPolicy::AutoIncrease => if requested >= required { requested } else { required },
        _ => requested,
    }
}

impl HeadlandSizingPolicy {
    /// Headland count to generate: the request, raised to the required count
    /// only under `AutoIncrease`.
    pub fn effective_headland_count(&self, requested: usize, required: usize) -> (r: usize)
        ensures
            r == effective_headlands(*self, requested as int, required as int),
            r >= requested,
            *self is AutoIncrease ==> r >= required,
    {
        match self {
            HeadlandSizingPolicy::AutoIncrease => if requested >= required { requested } else { required },
            _ => requested,
        }
    }

    /// Whether the feasibility report carries a warning: only `WarnOnly`
    /// warns, and only when the request is below the required count.
    pub fn warns(&self, requested: usize, required: usize) -> (r: bool)
        ensures
            r == (*self is WarnOnly && requested < required),
    {
        match self {
            HeadlandSizingPolicy::WarnOnly => requested < required,
            _ => false,
        }
    }

    /// Headland count to generate the field with, or the shortfall that the
    /// strict policy refuses.
    pub fn checked_headland_count(&self, requested: usize, required: usize) -> (r: Result<usize, HeadlandShortfall>)
        ensures
            (*self is StrictUser && requested < required) ==> r == Err::<usize, HeadlandShortfall>(
                HeadlandShortfall { requested, required },
            ),
            !(*self is StrictUser && requested < required) ==> r == Ok::<usize, HeadlandShortfall>(
                effective_headlands(*self, requested as int, required as int) as usize,
            ),
    {
        match self {
            HeadlandSizingPolicy::StrictUser => {
                if requested < required {
                    return Err(HeadlandShortfall { requested, required });
                }
            },
            _ => {},
        }
        Ok(self.effective_headland_count(requested, required))
    }
}

/// Row-skip stride that recovers the turn space a headland band lacks: 1 when
/// the band is deep enough (or there is no row width to size against),
/// otherwise the stride the turn model needs.
pub fn row_skip_stride_for_band(band_is_deep_enough: bool, required_stride: usize) -> (r: usize)
    ensures
        r == if band_is_deep_enough { 1 } else { required_stride },
{
    if band_is_deep_enough { 1 } else { required_stride }
}

/// Which connector joins two consecutive rows.
#[derive(Debug, Clone, Copy, PartialEq, Eq, Structural)]
pub enum ConnectorChoice {
    /// The direct row-to-row turn.
    Direct,
    /// Enter the headland band, follow it, and leave it into the next row.
    Headland,
    /// Neither route could be planned: the rows stay unjoined.
    Unjoined,
}

/// Connector picked for `mode`, given whether the rows are close enough to
/// prefer a direct turn and which of the two routes could be planned.
pub open spec fn connector_for(mode: ConnectorMode, prefer_direct: bool, direct: bool, headland: bool) -> ConnectorChoice {
    match mode {
        ConnectorMode::Direct => if direct {
            ConnectorChoice::Direct
        } else if headland {
            ConnectorChoice::Headland
        } else {
            ConnectorChoice::Unjoined
        },
        ConnectorMode::Headland => if headland {
            ConnectorChoice::Headland
        } else if direct {
            ConnectorChoice::Direct
        } else {
            ConnectorChoice::Unjoined
        },
        ConnectorMode::Auto => if prefer_direct && direct {
            ConnectorChoice::Direct
        } else if headland {
            ConnectorChoice::Headland
        } else if direct {
            ConnectorChoice::Direct
        } else {
            ConnectorChoice::Unjoined
        },
    }
}

/// Choose the connector between two rows. The mode's preferred route wins
/// when it could be planned; the other route is the fallback.
pub fn choose_connector(mode: ConnectorMode, prefer_direct: bool, direct_planned: bool, headland_planned: bool) -> (r: ConnectorChoice)
    ensures
        r == connector_for(mode, prefer_direct, direct_planned, headland_planned),
        r is Direct ==> direct_planned,
        r is Headland ==> headland_planned,
        r is Unjoined <==> (!direct_planned && !headland_planned),
{
    match mode {
        ConnectorMode::Direct => {
            if direct_planned {
                ConnectorChoice::Direct
            } else if headland_planned {
                ConnectorChoice::Headland
            } else {
                ConnectorChoice::Unjoined
            }
        },
        ConnectorMode::Headland => {
            if headland_planned {
                ConnectorChoice::Headland
            } else if direct_planned {
                ConnectorChoice::Direct
            } else {
                ConnectorChoice::Unjoined
            }
        },
        ConnectorMode::Auto => {
            if prefer_direct && direct_planned {
                ConnectorChoice::Direct
            } else if headland_planned {
                ConnectorChoice::Headland
            } else if direct_planned {
                ConnectorChoice::Direct
            } else {
                ConnectorChoice::Unjoined
            }
        },
    }
}

/// Headland ring that row-to-row connectors follow when no machine-sized lane
/// can be built: `None` (the field boundary) without headlands, the middle
/// ring with three or more, the outermost otherwise.
pub fn fallback_connector_ring(headland_count: usize) -> (r: Option<usize>)
    ensures
        headland_count == 0 ==> r is None,
        1 <= headland_count <= 2 ==> r == Some(0usize),
        headland_count >= 3 ==> r == Some(headland_count / 2),
        r matches Some(i) ==> i < headland_count,
{
    if headland_count == 0 {
        None
    } else if headland_count >= 3 {
        Some(headland_count / 2)
    } else {
        Some(0)
    }
}

/// Ring that bounds the work area a turn must stay out of: the innermost
/// headland when there are at least two, none otherwise (one ring leaves no
/// corridor between an outer and an inner edge).
pub fn turn_corridor_inner_ring(headland_count: usize) -> (r: Option<usize>)
    ensures
        headland_count >= 2 ==> r == Some((headland_count - 1) as usize),
        headland_count < 2 ==> r is None,
{
    if headland_count >= 2 {
        Some(headland_count - 1)
    } else {
        None
    }
}

/// Ring that bounds the corridor from outside: the outermost headland, or the
/// field boundary (`None`) without headlands. The strip between the border
/// and the first headland is no place for a turn.
pub fn turn_corridor_outer_ring(headland_count: usize) -> (r: Option<usize>)
    ensures
        headland_count >= 1 ==> r == Some(0usize),
        headland_count == 0 ==> r is None,
{
    if headland_count >= 1 {
        Some(0)
    } else {
        None
    }
}

/// The fallback connector ring lies within the corridor: never outside the
/// outer ring, and never inside the innermost ring.
pub proof fn lemma_fallback_ring_within_corridor(headland_count: usize)
    requires
        headland_count >= 1,
    ensures
        ({
            let ring = if headland_count >= 3 { headland_count / 2 } else { 0 };
            &&& 0 <= ring
            &&& ring <= headland_count - 1
        }),
{
}

/// Outcome of checking a tour's connectors against the allowed corridor.
#[derive(Debug, Clone, Copy, PartialEq, Eq, Structural)]
pub struct TourValidation {
    /// Connector segments inspected.
    pub connector_segments: usize,
    /// Connectors with a point beyond the outer boundary.
    pub outside_boundary: usize,
    /// Connectors whose interior cuts through the work area.
    pub through_work_area: usize,
}

impl Default for TourValidation {
    fn default() -> (r: Self)
        ensures
            r.connector_segments == 0,
            r.outside_boundary == 0,
            r.through_work_area == 0,
    {
        TourValidation { connector_segments: 0, outside_boundary: 0, through_work_area: 0 }
    }
}

/// A connector segment: a turn or a detour, not a work row or headland pass.
pub open spec fn is_connector(kind: SwathType) -> bool {
    kind == SwathType::Connection || kind == SwathType::Around
}

/// Connectors among `kinds[0..upto]` whose flag is set.
pub open spec fn flagged_connectors(kinds: Seq<SwathType>, flags: Seq<bool>, upto: int) -> int
    decreases upto,
{
    if upto <= 0 {
        0
    } else {
        flagged_connectors(kinds, flags, upto - 1) + if is_connector(kinds[upto - 1]) && flags[upto - 1] {
            1int
        } else {
            0int
        }
    }
}

/// Connectors among `kinds[0..upto]`.
pub open spec fn connector_count(kinds: Seq<SwathType>, upto: int) -> int
    decreases upto,
{
    if upto <= 0 {
        0
    } else {
        connector_count(kinds, upto - 1) + if is_connector(kinds[upto - 1]) { 1int } else { 0int }
    }
}

proof fn lemma_flagged_le_connectors(kinds: Seq<SwathType>, flags: Seq<bool>, upto: int)
    requires
        0 <= upto,
    ensures
        0 <= flagged_connectors(kinds, flags, upto) <= connector_count(kinds, upto) <= upto,
    decreases upto,
{
    if upto > 0 {
        lemma_flagged_le_connectors(kinds, flags, upto - 1);
    }
}

impl TourValidation {
    /// True when no connector leaves the allowed corridor.
    pub fn ok(&self) -> (r: bool)
        ensures
            r == (self.outside_boundary == 0 && self.through_work_area == 0),
    {
        self.outside_boundary == 0 && self.through_work_area == 0
    }

    /// Total corridor violations.
    pub fn violations(&self) -> (r: usize)
        requires
            self.outside_boundary + self.through_work_area <= usize::MAX,
        ensures
            r == self.outside_boundary + self.through_work_area,
    {
        self.outside_boundary + self.through_work_area
    }

    /// Tally a tour: `kinds[i]` is the kind of segment `i`, `outside[i]`
    /// whether it has a point beyond the outer boundary, `through[i]` whether
    /// it cuts through the work area. Only connectors are counted.
    pub fn tally(kinds: &Vec<SwathType>, outside: &Vec<bool>, through: &Vec<bool>) -> (r: TourValidation)
        requires
            outside.len() == kinds.len(),
            through.len() == kinds.len(),
        ensures
            r.connector_segments == connector_count(kinds@, kinds.len() as int),
            r.outside_boundary == flagged_connectors(kinds@, outside@, kinds.len() as int),
            r.through_work_area == flagged_connectors(kinds@, through@, kinds.len() as int),
            r.outside_boundary <= r.connector_segments,
            r.through_work_area <= r.connector_segments,
    {
        let n = kinds.len();
        let mut result = TourValidation::default();
        let mut i: usize = 0;
        while i < n
            invariant
                n == kinds.len(),
                outside.len() == n,
                through.len() == n,
                i <= n,
                result.connector_segments == connector_count(kinds@, i as int),
                result.outside_boundary == flagged_connectors(kinds@, outside@, i as int),
                result.through_work_area == flagged_connectors(kinds@, through@, i as int),
            decreases n - i,
        {
            proof {
                lemma_flagged_le_connectors(kinds@, outside@, i as int);
                lemma_flagged_le_connectors(kinds@, through@, i as int);
            }
            let kind = kinds[i];
            if kind == SwathType::Connection || kind == SwathType::Around {
                result.connector_segments = result.connector_segments + 1;
                if outside[i] {
                    result.outside_boundary = result.outside_boundary + 1;
                }
                if through[i] {
                    result.through_work_area = result.through_work_area + 1;
                }
            }
            i = i + 1;
        }
        proof {
            lemma_flagged_le_connectors(kinds@, outside@, n as int);
            lemma_flagged_le_connectors(kinds@, through@, n as int);
        }
        result
    }
}

/// A tour passes validation exactly when it has no corridor violation.
pub proof fn lemma_ok_iff_no_violations(v: TourValidation)
    ensures
        (v.outside_boundary == 0 && v.through_work_area == 0) <==> v.outside_boundary + v.through_work_area == 0,
{
}

/// One element of a planned tour.
#[derive(Debug, Clone, Copy, PartialEq, Eq, Structural)]
pub enum TourStep {
    /// Driving headland arc `a` as work.
    HeadlandArc(usize),
    /// The connector planned into headland arc `a` from the segment before it.
    ArcConnector(usize),
    /// The walk along the innermost ring from the last headland arc to the
    /// first row.
    Handoff,
    /// Routed work row `i`.
    Row(usize),
    /// Segment `k` of the connector planned between routed rows `i` and `i + 1`.
    RowConnector(usize, usize),
}

/// Segments `0..k` of the connector after row `i`.
pub open spec fn connector_run(i: int, k: int) -> Seq<TourStep> {
    Seq::new(k as nat, |j: int| TourStep::RowConnector(i as usize, j as usize))
}

/// Row `i` followed by the connector to the next row, if there is one.
pub open spec fn row_block(counts: Seq<usize>, n: int, i: int) -> Seq<TourStep> {
    seq![TourStep::Row(i as usize)] + if i + 1 < n {
        connector_run(i, counts[i] as int)
    } else {
        Seq::empty()
    }
}

/// The first `k` row blocks of a tour over `n` routed rows, where
/// `counts[i]` is the number of segments of the connector after row `i`.
pub open spec fn rows_layout(counts: Seq<usize>, n: int, k: int) -> Seq<TourStep>
    decreases k,
{
    if k <= 0 {
        Seq::empty()
    } else {
        rows_layout(counts, n, k - 1) + row_block(counts, n, k - 1)
    }
}

/// The headland part of a tour over the first `k` arcs: each arc with at
/// least two points is driven, preceded by its connector when a segment came
/// before it and that connector could be planned (`joins[a]`).
pub open spec fn arcs_layout(point_counts: Seq<usize>, joins: Seq<bool>, k: int) -> Seq<TourStep>
    decreases k,
{
    if k <= 0 {
        Seq::empty()
    } else {
        let prev = arcs_layout(point_counts, joins, k - 1);
        if point_counts[k - 1] >= 2 {
            prev + (if prev.len() > 0 && joins[k - 1] {
                seq![TourStep::ArcConnector((k - 1) as usize)]
            } else {
                Seq::empty()
            }) + seq![TourStep::HeadlandArc((k - 1) as usize)]
        } else {
            prev
        }
    }
}

/// A whole tour: the driven headland arcs, the hand-off walk when there are
/// arcs and rows and it could be planned, then the rows with their connectors.
pub open spec fn headland_tour_layout(
    point_counts: Seq<usize>,
    joins: Seq<bool>,
    handoff: bool,
    counts: Seq<usize>,
    n: int,
) -> Seq<TourStep> {
    let arcs = arcs_layout(point_counts, joins, point_counts.len() as int);
    arcs + (if arcs.len() > 0 && n > 0 && handoff {
        seq![TourStep::Handoff]
    } else {
        Seq::empty()
    }) + rows_layout(counts, n, n)
}

/// Builds the order in which a tour's segments are driven.
pub struct TourBuilder;

impl TourBuilder {
    /// Layout of a tour over `row_count` routed rows: each row, then the
    /// `connector_counts[i]` segments of the connector to the next row.
    pub fn layout(row_count: usize, connector_counts: &Vec<usize>) -> (out: Vec<TourStep>)
        requires
            row_count <= connector_counts.len() + 1,
        ensures
            out@ == rows_layout(connector_counts@, row_count as int, row_count as int),
    {
        let mut out: Vec<TourStep> = Vec::new();
        Self::append_rows(&mut out, row_count, connector_counts);
        out
    }

    fn append_rows(out: &mut Vec<TourStep>, row_count: usize, connector_counts: &Vec<usize>)
        requires
            row_count <= connector_counts.len() + 1,
        ensures
            final(out)@ == old(out)@ + rows_layout(connector_counts@, row_count as int, row_count as int),
    {
        let ghost start = out@;
        let n = row_count;
        let mut i: usize = 0;
        while i < n
            invariant
                n == row_count,
                n <= connector_counts.len() + 1,
                i <= n,
                out@ == start + rows_layout(connector_counts@, n as int, i as int),
            decreases n - i,
        {
            let ghost before = out@;
            out.push(TourStep::Row(i));
            if i + 1 < n {
                let c = connector_counts[i];
                let mut j: usize = 0;
                while j < c
                    invariant
                        j <= c,
                        out@ == before + seq![TourStep::Row(i)] + connector_run(i as int, j as int),
                    decreases c - j,
                {
                    out.push(TourStep::RowConnector(i, j));
                    assert(connector_run(i as int, j + 1) =~= connector_run(i as int, j as int).push(TourStep::RowConnector(i, j)));
                    j = j + 1;
                }
                assert(row_block(connector_counts@, n as int, i as int) =~= seq![TourStep::Row(i)] + connector_run(i as int, c as int));
            } else {
                assert(row_block(connector_counts@, n as int, i as int) =~= seq![TourStep::Row(i)]);
            }
            assert(out@ =~= start + rows_layout(connector_counts@, n as int, i + 1));
            i = i + 1;
        }
    }

    /// Indices of the headland arcs that are driven: those with at least two
    /// points, in order.
    pub fn driven_arcs(point_counts: &Vec<usize>) -> (out: Vec<usize>)
        ensures
            forall|k: int| 0 <= k < out.len() ==> #[trigger] out@[k] < point_counts.len() && point_counts[out@[k] as int] >= 2,
            forall|a: int, b: int| 0 <= a < b < out.len() ==> #[trigger] out@[a] < #[trigger] out@[b],
            forall|i: int| 0 <= i < point_counts.len() && point_counts[i] >= 2 ==> #[trigger] out@.contains(i as usize),
    {
        let mut out: Vec<usize> = Vec::new();
        let mut i: usize = 0;
        while i < point_counts.len()
            invariant
                i <= point_counts.len(),
                forall|k: int| 0 <= k < out.len() ==> #[trigger] out@[k] < i && point_counts[out@[k] as int] >= 2,
                forall|a: int, b: int| 0 <= a < b < out.len() ==> #[trigger] out@[a] < #[trigger] out@[b],
                forall|x: int| 0 <= x < i && point_counts[x] >= 2 ==> #[trigger] out@.contains(x as usize),
            decreases point_counts.len() - i,
        {
            let ghost old = out@;
            if point_counts[i] >= 2 {
                out.push(i);
                assert(out@[out.len() - 1] == i);
            }
            assert forall|x: int| 0 <= x < i + 1 && point_counts[x] >= 2 implies #[trigger] out@.contains(x as usize) by {
                if x < i {
                    assert(old.contains(x as usize));
                    let k = choose|k: int| 0 <= k < old.len() && old[k] == x as usize;
                    assert(out@[k] == x as usize);
                } else {
                    assert(out@[out.len() - 1] == i);
                }
            }
            i = i + 1;
        }
        out
    }

    /// Layout of a tour that drives its headland arcs before its rows:
    /// `point_counts[a]` is the number of points of arc `a`, `joins[a]`
    /// whether a connector into arc `a` could be planned, `handoff` whether
    /// the walk from the last arc to the first row could be planned. Then the
    /// rows as in `layout`.
    pub fn headland_layout(
        point_counts: &Vec<usize>,
        joins: &Vec<bool>,
        handoff: bool,
        row_count: usize,
        connector_counts: &Vec<usize>,
    ) -> (out: Vec<TourStep>)
        requires
            joins.len() == point_counts.len(),
            row_count <= connector_counts.len() + 1,
        ensures
            out@ == headland_tour_layout(point_counts@, joins@, handoff, connector_counts@, row_count as int),
    {
        let mut out: Vec<TourStep> = Vec::new();
        let mut a: usize = 0;
        while a < point_counts.len()
            invariant
                joins.len() == point_counts.len(),
                a <= point_counts.len(),
                out@ == arcs_layout(point_counts@, joins@, a as int),
            decreases point_counts.len() - a,
        {
            if point_counts[a] >= 2 {
                let ghost prev = out@;
                if out.len() > 0 && joins[a] {
                    out.push(TourStep::ArcConnector(a));
                }
                out.push(TourStep::HeadlandArc(a));
                assert(out@ =~= arcs_layout(point_counts@, joins@, a + 1));
            }
            a = a + 1;
        }
        if out.len() > 0 && row_count > 0 && handoff {
            out.push(TourStep::Handoff);
        }
        let ghost arcs = out@;
        Self::append_rows(&mut out, row_count, connector_counts);
        proof {
            let h = headland_tour_layout(point_counts@, joins@, handoff, connector_counts@, row_count as int);
            assert(out@ =~= h);
        }
        out
    }
}

/// Where the goal point lies along the ring segment it shares with the start
/// point: before it, at the same place, or after it.
#[derive(Debug, Clone, Copy, PartialEq, Eq, Structural)]
pub enum Along {
    Before,
    Level,
    After,
}

/// `x` brought into `0..n`, for `-n <= x < 2n`.
pub open spec fn wrap(x: int, n: int) -> int {
    if x >= n {
        x - n
    } else if x < 0 {
        x + n
    } else {
        x
    }
}

/// Whether a walk reaches the goal without passing a ring vertex: both points
/// on one segment, with the goal ahead in the walking direction.
pub open spec fn walk_is_direct(start: int, goal: int, forward: bool, along: Along) -> bool {
    start == goal && if forward { !(along is Before) } else { !(along is After) }
}

/// Number of ring vertices passed walking from segment `start` to segment
/// `goal`, when the walk is not direct: a full round when both are the same.
pub open spec fn walk_len(n: int, start: int, goal: int, forward: bool) -> int {
    if forward {
        if goal > start { goal - start } else { goal - start + n }
    } else {
        if start > goal { start - goal } else { start - goal + n }
    }
}

/// The `j`-th vertex passed: forward walks pass the end vertex of each
/// segment, backward walks the start vertex.
pub open spec fn walk_vertex(n: int, start: int, forward: bool, j: int) -> int {
    if forward { wrap(start + 1 + j, n) } else { wrap(start - j, n) }
}

/// Ring vertices passed walking around a ring of `n` segments from a point on
/// segment `start` to a point on segment `goal` (segment `i` runs from vertex
/// `i` to vertex `i + 1`, wrapping), forward or backward.
pub fn ring_walk(n: usize, start: usize, goal: usize, forward: bool, along: Along) -> (out: Vec<usize>)
    requires
        start < n,
        goal < n,
    ensures
        walk_is_direct(start as int, goal as int, forward, along) ==> out.len() == 0,
        !walk_is_direct(start as int, goal as int, forward, along) ==> {
            &&& out.len() == walk_len(n as int, start as int, goal as int, forward)
            &&& forall|j: int| 0 <= j < out.len() ==> #[trigger] out@[j] == walk_vertex(n as int, start as int, forward, j)
        },
{
    let mut out: Vec<usize> = Vec::new();
    let direct = start == goal && if forward {
        match along {
            Along::Before => false,
            _ => true,
        }
    } else {
        match along {
            Along::After => false,
            _ => true,
        }
    };
    if direct {
        return out;
    }
    let len: usize = if forward {
        if goal > start { goal - start } else { n - (start - goal) }
    } else {
        if start > goal { start - goal } else { n - (goal - start) }
    };
    let mut j: usize = 0;
    while j < len
        invariant
            start < n,
            goal < n,
            len == walk_len(n as int, start as int, goal as int, forward),
            j <= len,
            out.len() == j,
            forall|k: int| 0 <= k < j ==> #[trigger] out@[k] == walk_vertex(n as int, start as int, forward, k),
        decreases len - j,
    {
        let v: usize = if forward {
            if j < n - 1 - start { start + 1 + j } else { j - (n - 1 - start) }
        } else {
            if j > start { n - (j - start) } else { start - j }
        };
        out.push(v);
        j = j + 1;
    }
    out
}

/// Walking back from `start` to `goal` passes the same vertices as walking
/// forward from `goal` to `start`, in reverse order.
pub proof fn lemma_backward_walk_reverses_forward(n: int, start: int, goal: int)
    requires
        0 <= start < n,
        0 <= goal < n,
    ensures
        walk_len(n, start, goal, false) == walk_len(n, goal, start, true),
        forall|j: int|
            0 <= j < walk_len(n, start, goal, false) ==> #[trigger] walk_vertex(n, start, false, j) == walk_vertex(
                n,
                goal,
                true,
                walk_len(n, start, goal, false) - 1 - j,
            ),
{
}

} // verus!
