use vstd::prelude::*;

use crate::error::MaptraxError;
use crate::ids::{IdSource, decimal};

verus! {

/// Role of a path segment in a plan.
#[derive(Debug, Clone, Copy, PartialEq, Eq, Structural)]
pub enum SwathType {
    Swath,
    Connection,
    Around,
    Headland,
}

impl SwathType {
    /// Lower-case name used as the `swath_type` property on export.
    pub fn name(&self) -> (r: &'static str)
        ensures
            match *self {
                SwathType::Swath => r@ == "swath"@,
                SwathType::Connection => r@ == "connection"@,
                SwathType::Around => r@ == "around"@,
                SwathType::Headland => r@ == "headland"@,
            },
    {
        match self {
            SwathType::Swath => "swath",
            SwathType::Connection => "connection",
            SwathType::Around => "around",
            SwathType::Headland => "headland",
        }
    }
}

/// Name of a swath type as written on export.
pub fn swath_type_name(kind: SwathType) -> (r: &'static str)
    ensures
        match kind {
            SwathType::Swath => r@ == "swath"@,
            SwathType::Connection => r@ == "connection"@,
            SwathType::Around => r@ == "around"@,
            SwathType::Headland => r@ == "headland"@,
        },
{
    kind.name()
}

/// What a swath-angle search optimizes.
#[derive(Debug, Clone, Copy, PartialEq, Eq, Structural)]
pub enum SwathObjective {
    ApproxMinSwathCount,
    ExactSwathCount(usize),
    TotalSwathLength,
    OverlapPenalty,
    CoverageScore,
}

impl SwathObjective {
    /// Whether a higher score is better (only the coverage score); every
    /// other objective is minimized.
    pub fn maximizes(&self) -> (r: bool)
        ensures
            r == (*self is CoverageScore),
    {
        match self {
            SwathObjective::CoverageScore => true,
            _ => false,
        }
    }

    /// Score of a row layout with `count` rows for the objectives that only
    /// count rows: the count itself, or its distance from the target count.
    /// `None` for objectives that measure lengths or areas.
    pub fn count_score(&self, count: usize) -> (r: Option<usize>)
        ensures
            match *self {
                SwathObjective::ApproxMinSwathCount => r == Some(count),
                SwathObjective::ExactSwathCount(target) => r == Some(
                    (if count >= target { count - target } else { target - count }) as usize,
                ),
                _ => r is None,
            },
    {
        match self {
            SwathObjective::ApproxMinSwathCount => Some(count),
            SwathObjective::ExactSwathCount(target) => {
                let t = *target;
                Some(if count >= t { count - t } else { t - count })
            },
            _ => None,
        }
    }
}

/// What the bookkeeping reads of a swath: its row id, its role, and whether
/// it has been worked.
#[derive(Debug, Clone, Copy, PartialEq, Eq, Structural)]
pub struct SwathState {
    pub id: i32,
    pub kind: SwathType,
    pub finished: bool,
}

/// A work row (not a connector, detour or headland pass).
pub open spec fn is_work(s: SwathState) -> bool {
    s.kind == SwathType::Swath
}

/// Number of work rows among `s[0..upto]` whose finished flag is `finished`.
pub open spec fn work_count(s: Seq<SwathState>, finished: bool, upto: int) -> int
    decreases upto,
{
    if upto <= 0 {
        0
    } else {
        work_count(s, finished, upto - 1) + if is_work(s[upto - 1]) && s[upto - 1].finished == finished {
            1int
        } else {
            0int
        }
    }
}

/// Number of work rows among `s[0..upto]`.
pub open spec fn work_total(s: Seq<SwathState>, upto: int) -> int
    decreases upto,
{
    if upto <= 0 {
        0
    } else {
        work_total(s, upto - 1) + if is_work(s[upto - 1]) { 1int } else { 0int }
    }
}

/// Positions `i < upto` of work rows, in increasing order.
pub open spec fn work_positions(s: Seq<SwathState>, upto: int) -> Seq<usize>
    decreases upto,
{
    if upto <= 0 {
        Seq::empty()
    } else if is_work(s[upto - 1]) {
        work_positions(s, upto - 1).push((upto - 1) as usize)
    } else {
        work_positions(s, upto - 1)
    }
}

/// Positions `i < upto` of work rows whose finished flag is `finished`, in
/// increasing order.
pub open spec fn flagged_positions(s: Seq<SwathState>, finished: bool, upto: int) -> Seq<usize>
    decreases upto,
{
    if upto <= 0 {
        Seq::empty()
    } else if is_work(s[upto - 1]) && s[upto - 1].finished == finished {
        flagged_positions(s, finished, upto - 1).push((upto - 1) as usize)
    } else {
        flagged_positions(s, finished, upto - 1)
    }
}

/// Whether `i` is the first work row carrying `id`.
pub open spec fn first_work_with_id(s: Seq<SwathState>, id: i32, i: int) -> bool {
    &&& 0 <= i < s.len()
    &&& is_work(s[i]) && s[i].id == id
    &&& forall|j: int| 0 <= j < i ==> !(is_work(#[trigger] s[j]) && s[j].id == id)
}

/// Whether some work row carries `id`.
pub open spec fn has_work_with_id(s: Seq<SwathState>, id: i32) -> bool {
    exists|i: int| 0 <= i < s.len() && is_work(#[trigger] s[i]) && s[i].id == id
}

/// Finished and remaining work rows together are all work rows.
pub proof fn lemma_work_counts_split(s: Seq<SwathState>, upto: int)
    requires
        0 <= upto <= s.len(),
    ensures
        work_count(s, true, upto) + work_count(s, false, upto) == work_total(s, upto),
        0 <= work_count(s, true, upto) <= upto,
        0 <= work_count(s, false, upto) <= upto,
    decreases upto,
{
    if upto > 0 {
        lemma_work_counts_split(s, upto - 1);
    }
}

/// Counts over a prefix ignore everything after it.
proof fn lemma_work_count_agree(a: Seq<SwathState>, b: Seq<SwathState>, f: bool, upto: int)
    requires
        0 <= upto <= a.len(),
        upto <= b.len(),
        forall|j: int| 0 <= j < upto ==> a[j] == b[j],
    ensures
        work_count(a, f, upto) == work_count(b, f, upto),
        work_total(a, upto) == work_total(b, upto),
    decreases upto,
{
    if upto > 0 {
        lemma_work_count_agree(a, b, f, upto - 1);
    }
}

/// Changing one row's finished flag moves at most that row between the counts.
proof fn lemma_work_count_update(s: Seq<SwathState>, i: int, v: SwathState, f: bool, upto: int)
    requires
        0 <= i < s.len(),
        0 <= upto <= s.len(),
        v.kind == s[i].kind,
        v.id == s[i].id,
    ensures
        work_total(s.update(i, v), upto) == work_total(s, upto),
        work_count(s.update(i, v), f, upto) == work_count(s, f, upto) + if i < upto && is_work(s[i]) {
            (if v.finished == f { 1int } else { 0int }) - (if s[i].finished == f { 1int } else { 0int })
        } else {
            0int
        },
    decreases upto,
{
    if upto > 0 {
        lemma_work_count_update(s, i, v, f, upto - 1);
    }
}

/// Bookkeeping of a headland ring: its identifier, whether it has been
/// driven, and the number of its (open) vertices.
#[derive(Debug, Clone, PartialEq, Eq)]
pub struct Ring {
    pub uuid: String,
    pub finished: bool,
    pub vertex_count: usize,
}

/// A ring over a polygon with `open_vertex_count` vertices, not yet driven.
/// An empty polygon is refused. An empty `uuid` is replaced by a fresh
/// `ring_N` identifier from `ids`, which advances only then.
pub fn create_ring(open_vertex_count: usize, uuid: String, ids: &mut IdSource) -> (r: Result<Ring, MaptraxError>)
    ensures
        open_vertex_count == 0 ==> r == Err::<Ring, MaptraxError>(MaptraxError::EmptyPolygon) && *final(ids) == *old(ids),
        open_vertex_count > 0 ==> (r matches Ok(ring) && {
            &&& !ring.finished
            &&& ring.vertex_count == open_vertex_count
            &&& uuid@.len() > 0 ==> ring.uuid@ == uuid@ && *final(ids) == *old(ids)
            &&& uuid@.len() == 0 ==> ring.uuid@ == "ring"@ + seq!['_'] + decimal(old(ids).next as nat)
                && final(ids).next == if old(ids).next == u64::MAX { 0 } else { (old(ids).next + 1) as u64 }
        }),
{
    if open_vertex_count == 0 {
        return Err(MaptraxError::EmptyPolygon);
    }
    let uuid = if uuid.as_str().is_empty() {
        ids.next_id("ring")
    } else {
        uuid
    };
    Ok(Ring { uuid, finished: false, vertex_count: open_vertex_count })
}

/// Swath bookkeeping of one field part: its rows and connectors, and the
/// headland rings (outermost first).
#[derive(Debug, Clone, PartialEq, Eq)]
pub struct Part {
    pub swaths: Vec<SwathState>,
    pub headlands: Vec<Ring>,
}

impl Part {
    /// Mark the first work row carrying `swath_id` finished or unfinished.
    /// Returns false, changing nothing, when no work row carries that id.
    pub fn set_swath_finished(&mut self, swath_id: i32, finished: bool) -> (found: bool)
        ensures
            found == has_work_with_id(old(self).swaths@, swath_id),
            final(self).headlands == old(self).headlands,
            !found ==> final(self).swaths@ == old(self).swaths@,
            found ==> exists|i: int|
                first_work_with_id(old(self).swaths@, swath_id, i) && final(self).swaths@ == old(self).swaths@.update(
                    i,
                    SwathState { finished, ..old(self).swaths@[i] },
                ),
    {
        let n = self.swaths.len();
        let mut i: usize = 0;
        while i < n
            invariant
                n == self.swaths.len(),
                self.swaths@ == old(self).swaths@,
                self.headlands == old(self).headlands,
                i <= n,
                forall|j: int| 0 <= j < i ==> !(is_work(#[trigger] self.swaths@[j]) && self.swaths@[j].id == swath_id),
            decreases n - i,
        {
            let s = self.swaths[i];
            if s.id == swath_id && s.kind == SwathType::Swath {
                self.swaths.set(i, SwathState { finished, ..s });
                assert(first_work_with_id(old(self).swaths@, swath_id, i as int));
                return true;
            }
            i = i + 1;
        }
        assert(!has_work_with_id(old(self).swaths@, swath_id));
        false
    }

    /// Mark every work row finished or unfinished; connectors are untouched.
    pub fn set_all_swaths_finished(&mut self, finished: bool)
        ensures
            final(self).headlands == old(self).headlands,
            final(self).swaths.len() == old(self).swaths.len(),
            forall|i: int|
                0 <= i < old(self).swaths.len() ==> #[trigger] final(self).swaths@[i] == if is_work(old(self).swaths@[i]) {
                    SwathState { finished, ..old(self).swaths@[i] }
                } else {
                    old(self).swaths@[i]
                },
    {
        let n = self.swaths.len();
        let mut i: usize = 0;
        while i < n
            invariant
                n == self.swaths.len(),
                n == old(self).swaths.len(),
                self.headlands == old(self).headlands,
                i <= n,
                forall|j: int|
                    0 <= j < i ==> #[trigger] self.swaths@[j] == if is_work(old(self).swaths@[j]) {
                        SwathState { finished, ..old(self).swaths@[j] }
                    } else {
                        old(self).swaths@[j]
                    },
                forall|j: int| i <= j < n ==> #[trigger] self.swaths@[j] == old(self).swaths@[j],
            decreases n - i,
        {
            let s = self.swaths[i];
            if s.kind == SwathType::Swath {
                self.swaths.set(i, SwathState { finished, ..s });
            }
            i = i + 1;
        }
    }

    /// Number of finished work rows.
    pub fn finished_swath_count(&self) -> (c: usize)
        ensures
            c == work_count(self.swaths@, true, self.swaths.len() as int),
    {
        count_work(&self.swaths, true)
    }

    /// Number of work rows still to be worked.
    pub fn remaining_swath_count(&self) -> (c: usize)
        ensures
            c == work_count(self.swaths@, false, self.swaths.len() as int),
    {
        count_work(&self.swaths, false)
    }

    /// Positions of the work rows, in order.
    pub fn work_swaths(&self) -> (p: Vec<usize>)
        ensures
            p@ == work_positions(self.swaths@, self.swaths.len() as int),
    {
        let n = self.swaths.len();
        let mut out: Vec<usize> = Vec::new();
        let mut i: usize = 0;
        while i < n
            invariant
                n == self.swaths.len(),
                i <= n,
                out@ == work_positions(self.swaths@, i as int),
            decreases n - i,
        {
            if self.swaths[i].kind == SwathType::Swath {
                out.push(i);
            }
            i = i + 1;
        }
        out
    }

    /// Positions of the finished work rows, in order.
    pub fn finished_swaths(&self) -> (p: Vec<usize>)
        ensures
            p@ == flagged_positions(self.swaths@, true, self.swaths.len() as int),
    {
        positions_with_flag(&self.swaths, true)
    }

    /// Positions of the work rows still to be worked, in order. These are the
    /// rows the division planner shares out.
    pub fn remaining_swaths(&self) -> (p: Vec<usize>)
        ensures
            p@ == flagged_positions(self.swaths@, false, self.swaths.len() as int),
    {
        positions_with_flag(&self.swaths, false)
    }

    /// Positions of the headland rings not yet driven, outermost first.
    pub fn remaining_headlands(&self) -> (p: Vec<usize>)
        ensures
            p.len() <= self.headlands.len(),
            forall|a: int, b: int| 0 <= a < b < p.len() ==> #[trigger] p[a] < #[trigger] p[b],
            forall|r: int|
                0 <= r < self.headlands.len() ==> (#[trigger] p@.contains(r as usize) <==> !self.headlands[r].finished),
    {
        let n = self.headlands.len();
        let mut out: Vec<usize> = Vec::new();
        let mut r: usize = 0;
        while r < n
            invariant
                n == self.headlands.len(),
                r <= n,
                out.len() <= r,
                forall|a: int| 0 <= a < out.len() ==> #[trigger] out[a] < r,
                forall|a: int, b: int| 0 <= a < b < out.len() ==> #[trigger] out[a] < #[trigger] out[b],
                forall|j: int| 0 <= j < r ==> (#[trigger] out@.contains(j as usize) <==> !self.headlands[j].finished),
            decreases n - r,
        {
            if !self.headlands[r].finished {
                let ghost before = out@;
                out.push(r);
                assert forall|j: int| 0 <= j < r + 1 implies (#[trigger] out@.contains(j as usize) <==> !self.headlands[j].finished) by {
                    if j < r {
                        if before.contains(j as usize) {
                            let a = choose|a: int| 0 <= a < before.len() && before[a] == j as usize;
                            assert(out@[a] == j as usize);
                        }
                        if out@.contains(j as usize) {
                            let a = choose|a: int| 0 <= a < out.len() && out@[a] == j as usize;
                            if a < before.len() {
                                assert(before[a] == j as usize);
                            }
                        }
                    } else {
                        assert(out@[out.len() - 1] == j as usize);
                    }
                }
            } else {
                assert forall|j: int| 0 <= j < r + 1 implies (#[trigger] out@.contains(j as usize) <==> !self.headlands[j].finished) by {
                    if j == r && out@.contains(j as usize) {
                        let a = choose|a: int| 0 <= a < out.len() && out@[a] == j as usize;
                        assert(out[a] < r);
                    }
                }
            }
            r = r + 1;
        }
        out
    }
}

/// Positions with matching flag.
fn positions_with_flag(swaths: &Vec<SwathState>, finished: bool) -> (p: Vec<usize>)
    ensures
        p@ == flagged_positions(swaths@, finished, swaths.len() as int),
{
    let n = swaths.len();
    let mut out: Vec<usize> = Vec::new();
    let mut i: usize = 0;
    while i < n
        invariant
            n == swaths.len(),
            i <= n,
            out@ == flagged_positions(swaths@, finished, i as int),
        decreases n - i,
    {
        let s = swaths[i];
        if s.kind == SwathType::Swath && s.finished == finished {
            out.push(i);
        }
        i = i + 1;
    }
    out
}

/// Count work rows with the given finished flag.
fn count_work(swaths: &Vec<SwathState>, finished: bool) -> (c: usize)
    ensures
        c == work_count(swaths@, finished, swaths.len() as int),
{
    let n = swaths.len();
    let mut c: usize = 0;
    let mut i: usize = 0;
    while i < n
        invariant
            n == swaths.len(),
            i <= n,
            c == work_count(swaths@, finished, i as int),
            c <= i,
        decreases n - i,
    {
        let s = swaths[i];
        if s.kind == SwathType::Swath && s.finished == finished {
            c = c + 1;
        }
        i = i + 1;
    }
    c
}

/// Marking a work row finished moves it from the remaining count to the
/// finished count; marking it unfinished moves it back; nothing changes when
/// the row already had that state or no work row carries the id.
pub proof fn lemma_marking_moves_between_counts(before: Part, after: Part, swath_id: i32, finished: bool, found: bool)
    requires
        found == has_work_with_id(before.swaths@, swath_id),
        !found ==> after.swaths@ == before.swaths@,
        found ==> exists|i: int|
            first_work_with_id(before.swaths@, swath_id, i) && after.swaths@ == before.swaths@.update(
                i,
                SwathState { finished, ..before.swaths@[i] },
            ),
    ensures
        work_total(after.swaths@, after.swaths.len() as int) == work_total(before.swaths@, before.swaths.len() as int),
        found ==> work_count(after.swaths@, finished, after.swaths.len() as int) >= work_count(before.swaths@, finished, before.swaths.len() as int),
        found ==> work_count(after.swaths@, finished, after.swaths.len() as int) <= work_count(before.swaths@, finished, before.swaths.len() as int) + 1,
        work_count(after.swaths@, true, after.swaths.len() as int) + work_count(after.swaths@, false, after.swaths.len() as int)
            == work_count(before.swaths@, true, before.swaths.len() as int) + work_count(before.swaths@, false, before.swaths.len() as int),
        found ==> exists|i: int|
            first_work_with_id(before.swaths@, swath_id, i) && (before.swaths@[i].finished != finished ==> (
                work_count(after.swaths@, finished, after.swaths.len() as int) == work_count(before.swaths@, finished, before.swaths.len() as int) + 1
                && work_count(after.swaths@, !finished, after.swaths.len() as int) == work_count(before.swaths@, !finished, before.swaths.len() as int) - 1)),
{
    let n = before.swaths.len() as int;
    lemma_work_counts_split(before.swaths@, n);
    lemma_work_counts_split(after.swaths@, after.swaths.len() as int);
    if found {
        let i = choose|i: int|
            first_work_with_id(before.swaths@, swath_id, i) && after.swaths@ == before.swaths@.update(
                i,
                SwathState { finished, ..before.swaths@[i] },
            );
        let v = SwathState { finished, ..before.swaths@[i] };
        lemma_work_count_update(before.swaths@, i, v, finished, n);
        lemma_work_count_update(before.swaths@, i, v, !finished, n);
        lemma_work_count_update(before.swaths@, i, v, true, n);
        assert(after.swaths@.len() == n);
    }
}

/// After marking every work row finished nothing remains and every work row
/// counts as finished.
pub proof fn lemma_all_finished_counts(before: Part, after: Part)
    requires
        after.swaths.len() == before.swaths.len(),
        forall|i: int|
            0 <= i < before.swaths.len() ==> #[trigger] after.swaths@[i] == if is_work(before.swaths@[i]) {
                SwathState { finished: true, ..before.swaths@[i] }
            } else {
                before.swaths@[i]
            },
    ensures
        work_count(after.swaths@, false, after.swaths.len() as int) == 0,
        work_count(after.swaths@, true, after.swaths.len() as int) == work_total(before.swaths@, before.swaths.len() as int),
{
    lemma_all_finished_prefix(before.swaths@, after.swaths@, before.swaths.len() as int);
}

proof fn lemma_all_finished_prefix(b: Seq<SwathState>, a: Seq<SwathState>, upto: int)
    requires
        0 <= upto <= b.len(),
        a.len() == b.len(),
        forall|i: int|
            0 <= i < b.len() ==> #[trigger] a[i] == if is_work(b[i]) {
                SwathState { finished: true, ..b[i] }
            } else {
                b[i]
            },
    ensures
        work_count(a, false, upto) == 0,
        work_count(a, true, upto) == work_total(b, upto),
    decreases upto,
{
    if upto > 0 {
        lemma_all_finished_prefix(b, a, upto - 1);
        assert(a[upto - 1] == if is_work(b[upto - 1]) {
            SwathState { finished: true, ..b[upto - 1] }
        } else {
            b[upto - 1]
        });
    }
}

/// The part at `index`, or `MissingPart(index)` past the end.
pub fn part_at(parts: &Vec<Part>, index: usize) -> (r: Result<&Part, MaptraxError>)
    ensures
        index < parts.len() ==> (r matches Ok(p) && *p == parts[index as int]),
        index >= parts.len() ==> r == Err::<&Part, MaptraxError>(MaptraxError::MissingPart(index)),
{
    if index < parts.len() {
        Ok(&parts[index])
    } else {
        Err(MaptraxError::MissingPart(index))
    }
}

/// Swath bookkeeping of a whole field.
#[derive(Debug, Clone, PartialEq, Eq)]
pub struct Field {
    pub parts: Vec<Part>,
}

/// Work rows with the given flag over the first `k` parts.
pub open spec fn field_work_count(parts: Seq<Part>, finished: bool, k: int) -> int
    decreases k,
{
    if k <= 0 {
        0
    } else {
        field_work_count(parts, finished, k - 1) + work_count(parts[k - 1].swaths@, finished, parts[k - 1].swaths.len() as int)
    }
}

/// Rows and connectors over the first `k` parts.
pub open spec fn field_len(parts: Seq<Part>, k: int) -> int
    decreases k,
{
    if k <= 0 {
        0
    } else {
        field_len(parts, k - 1) + parts[k - 1].swaths.len()
    }
}

impl Field {
    /// The parts of the field, in order.
    pub fn parts(&self) -> (r: &Vec<Part>)
        ensures
            r == &self.parts,
    {
        &self.parts
    }

    /// The parts of the field, in order.
    pub fn get_parts(&self) -> (r: &Vec<Part>)
        ensures
            r == &self.parts,
    {
        &self.parts
    }

    /// The part at `index`, or `MissingPart(index)`.
    pub fn part(&self, index: usize) -> (r: Result<&Part, MaptraxError>)
        ensures
            index < self.parts.len() ==> (r matches Ok(p) && *p == self.parts[index as int]),
            index >= self.parts.len() ==> r == Err::<&Part, MaptraxError>(MaptraxError::MissingPart(index)),
    {
        part_at(&self.parts, index)
    }

    /// Mark one work row of part `part_index` finished or unfinished:
    /// `MissingPart` for a part index past the end, otherwise whether a work
    /// row carried `swath_id`.
    pub fn set_swath_finished(&mut self, part_index: usize, swath_id: i32, finished: bool) -> (r: Result<bool, MaptraxError>)
        ensures
            part_index >= old(self).parts.len() ==> r == Err::<bool, MaptraxError>(MaptraxError::MissingPart(part_index))
                && *final(self) == *old(self),
            part_index < old(self).parts.len() ==> {
                &&& r == Ok::<bool, MaptraxError>(has_work_with_id(old(self).parts[part_index as int].swaths@, swath_id))
                &&& final(self).parts.len() == old(self).parts.len()
                &&& forall|k: int| 0 <= k < old(self).parts.len() && k != part_index ==> #[trigger] final(self).parts[k] == old(self).parts[k]
                &&& final(self).parts[part_index as int].headlands == old(self).parts[part_index as int].headlands
                &&& !has_work_with_id(old(self).parts[part_index as int].swaths@, swath_id) ==> final(self).parts[part_index as int].swaths@
                    == old(self).parts[part_index as int].swaths@
                &&& has_work_with_id(old(self).parts[part_index as int].swaths@, swath_id) ==> exists|i: int|
                    first_work_with_id(old(self).parts[part_index as int].swaths@, swath_id, i)
                        && final(self).parts[part_index as int].swaths@ == old(self).parts[part_index as int].swaths@.update(
                        i,
                        SwathState { finished, ..old(self).parts[part_index as int].swaths@[i] },
                    )
            },
    {
        if part_index >= self.parts.len() {
            return Err(MaptraxError::MissingPart(part_index));
        }
        let mut part = Part { swaths: Vec::new(), headlands: Vec::new() };
        std::mem::swap(&mut part, &mut self.parts[part_index]);
        let found = part.set_swath_finished(swath_id, finished);
        self.parts.set(part_index, part);
        Ok(found)
    }

    /// Finished work rows over all parts.
    pub fn finished_swath_count(&self) -> (c: usize)
        requires
            field_len(self.parts@, self.parts.len() as int) <= usize::MAX,
        ensures
            c == field_work_count(self.parts@, true, self.parts.len() as int),
    {
        self.count_all(true)
    }

    /// Work rows still to be worked over all parts.
    pub fn remaining_swath_count(&self) -> (c: usize)
        requires
            field_len(self.parts@, self.parts.len() as int) <= usize::MAX,
        ensures
            c == field_work_count(self.parts@, false, self.parts.len() as int),
    {
        self.count_all(false)
    }

    fn count_all(&self, finished: bool) -> (c: usize)
        requires
            field_len(self.parts@, self.parts.len() as int) <= usize::MAX,
        ensures
            c == field_work_count(self.parts@, finished, self.parts.len() as int),
    {
        let n = self.parts.len();
        let mut total: usize = 0;
        let mut k: usize = 0;
        while k < n
            invariant
                n == self.parts.len(),
                k <= n,
                field_len(self.parts@, n as int) <= usize::MAX,
                total == field_work_count(self.parts@, finished, k as int),
                total <= field_len(self.parts@, k as int),
            decreases n - k,
        {
            proof {
                lemma_field_len_monotone(self.parts@, k + 1, n as int);
                lemma_work_counts_split(self.parts[k as int].swaths@, self.parts[k as int].swaths.len() as int);
            }
            let c = count_work(&self.parts[k].swaths, finished);
            total = total + c;
            k = k + 1;
        }
        total
    }
}

/// A field's count of finished (or remaining) work rows adds up its parts'
/// counts: no parts count nothing, and counting one more part adds exactly
/// the count that part gives on its own (`Part::finished_swath_count` or
/// `Part::remaining_swath_count`).
pub proof fn lemma_field_count_adds_parts(parts: Seq<Part>, finished: bool, k: int)
    requires
        0 <= k < parts.len(),
    ensures
        field_work_count(parts, finished, 0) == 0,
        field_work_count(parts, finished, k + 1) == field_work_count(parts, finished, k) + work_count(
            parts[k].swaths@,
            finished,
            parts[k].swaths.len() as int,
        ),
{
}

/// Counting the parts of two fields together gives the sum of the two
/// fields' counts.
pub proof fn lemma_field_count_of_joined_parts(a: Seq<Part>, b: Seq<Part>, finished: bool)
    ensures
        field_work_count(a + b, finished, (a + b).len() as int) == field_work_count(a, finished, a.len() as int)
            + field_work_count(b, finished, b.len() as int),
    decreases b.len(),
{
    if b.len() > 0 {
        let b0 = b.drop_last();
        lemma_field_count_of_joined_parts(a, b0, finished);
        assert((a + b).drop_last() =~= a + b0);
        lemma_field_count_prefix(a + b, (a + b).len() as int - 1);
        lemma_field_count_prefix(b, b.len() as int - 1);
        assert((a + b)[(a + b).len() - 1] == b[b.len() - 1]);
    }
}

/// The count over the first `k` parts depends only on those parts.
proof fn lemma_field_count_prefix(parts: Seq<Part>, k: int)
    requires
        0 <= k <= parts.len(),
    ensures
        field_work_count(parts, true, k) == field_work_count(parts.take(k), true, k),
        field_work_count(parts, false, k) == field_work_count(parts.take(k), false, k),
    decreases k,
{
    if k > 0 {
        lemma_field_count_prefix(parts, k - 1);
        lemma_field_count_prefix(parts.take(k), k - 1);
        assert(parts.take(k).take(k - 1) =~= parts.take(k - 1));
        assert(parts.take(k)[k - 1] == parts[k - 1]);
    }
}

/// Row totals grow with the number of parts counted.
proof fn lemma_field_len_monotone(parts: Seq<Part>, i: int, j: int)
    requires
        0 <= i <= j <= parts.len(),
    ensures
        field_len(parts, i) <= field_len(parts, j),
    decreases j - i,
{
    if i < j {
        lemma_field_len_monotone(parts, i, j - 1);
    }
}

} // verus!
