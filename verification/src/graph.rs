use vstd::prelude::*;

use crate::field::SwathType;

verus! {

/// A work row as a line of the routing network: graph vertices `a` (start)
/// and `b` (end), the row's identifier, and its position among the rows.
#[derive(Debug, Clone, PartialEq, Eq)]
pub struct ABLine {
    pub a: usize,
    pub b: usize,
    pub uuid: String,
    pub line_id: usize,
}

impl ABLine {
    pub fn new(a: usize, b: usize, uuid: String, line_id: usize) -> (r: ABLine)
        ensures
            r.a == a,
            r.b == b,
            r.uuid@ == uuid@,
            r.line_id == line_id,
    {
        ABLine { a, b, uuid, line_id }
    }

    /// Whether this line stands for the row with identifier `uuid`.
    pub fn equal(&self, uuid: &String) -> (r: bool)
        ensures
            r == (self.uuid@ == uuid@),
    {
        self.uuid == *uuid
    }
}

/// An undirected edge between two graph vertices.
#[derive(Debug, Clone, Copy, PartialEq, Eq, Structural)]
pub struct Edge {
    pub from: usize,
    pub to: usize,
}

/// The edge driving row `i`: from its start vertex `2i` to its end `2i + 1`.
pub open spec fn row_edge(i: int) -> Edge {
    Edge { from: (2 * i) as usize, to: (2 * i + 1) as usize }
}

/// The four edges joining an end of row `i` to an end of row `j`.
pub open spec fn link_quad(i: int, j: int) -> Seq<Edge> {
    seq![
        Edge { from: (2 * i) as usize, to: (2 * j) as usize },
        Edge { from: (2 * i) as usize, to: (2 * j + 1) as usize },
        Edge { from: (2 * i + 1) as usize, to: (2 * j) as usize },
        Edge { from: (2 * i + 1) as usize, to: (2 * j + 1) as usize },
    ]
}

/// Links from row `i` to rows `i + 1 .. j`.
pub open spec fn links_from(i: int, j: int) -> Seq<Edge>
    decreases j - i,
{
    if j <= i + 1 {
        Seq::empty()
    } else {
        links_from(i, j - 1) + link_quad(i, j - 1)
    }
}

/// Links from rows `0..i` to every later row among `n`.
pub open spec fn links_upto(n: int, i: int) -> Seq<Edge>
    decreases i,
{
    if i <= 0 {
        Seq::empty()
    } else {
        links_upto(n, i - 1) + links_from(i - 1, n)
    }
}

/// Edges of the routing network over `n` rows: the row edges in row order,
/// then, for every pair of rows `i < j`, the links between their ends.
pub open spec fn row_graph_edges(n: int) -> Seq<Edge> {
    Seq::new(n as nat, |i: int| row_edge(i)) + links_upto(n, n)
}

/// The routing network over `n` work rows: vertices `2i` and `2i + 1` are
/// the ends of row `i`.
#[derive(Debug, Clone, PartialEq, Eq)]
pub struct RowGraph {
    pub vertex_count: usize,
    pub edges: Vec<Edge>,
}

proof fn lemma_links_from_len(i: int, j: int)
    requires
        i < j,
    ensures
        links_from(i, j).len() == 4 * (j - i - 1),
    decreases j - i,
{
    if j > i + 1 {
        lemma_links_from_len(i, j - 1);
    }
}

proof fn lemma_links_upto_len(n: int, i: int)
    requires
        0 <= i <= n,
    ensures
        links_upto(n, i).len() == 2 * i * (2 * n - i - 1),
    decreases i,
{
    if i > 0 {
        lemma_links_upto_len(n, i - 1);
        lemma_links_from_len(i - 1, n);
        let a = links_upto(n, i - 1).len() as int;
        let b = links_from(i - 1, n).len() as int;
        assert(links_upto(n, i).len() == a + b);
        assert(a == 2 * (i - 1) * (2 * n - (i - 1) - 1));
        assert(b == 4 * (n - (i - 1) - 1));
        assert(2 * (i - 1) * (2 * n - (i - 1) - 1) + 4 * (n - (i - 1) - 1) == 2 * i * (2 * n - i - 1)) by (nonlinear_arith);
    } else {
        assert(2 * i * (2 * n - i - 1) == 0) by (nonlinear_arith)
            requires
                i == 0,
        ;
    }
}

/// Build the routing network over `row_count` rows.
pub fn row_graph(row_count: usize) -> (g: RowGraph)
    requires
        row_count <= 0x7fff_ffff,
    ensures
        g.vertex_count == 2 * row_count,
        g.edges@ == row_graph_edges(row_count as int),
{
    let n = row_count;
    let mut edges: Vec<Edge> = Vec::new();
    let mut i: usize = 0;
    while i < n
        invariant
            n <= 0x7fff_ffff,
            i <= n,
            edges@ == Seq::new(i as nat, |k: int| row_edge(k)),
        decreases n - i,
    {
        edges.push(Edge { from: 2 * i, to: 2 * i + 1 });
        assert(edges@ =~= Seq::new((i + 1) as nat, |k: int| row_edge(k)));
        i = i + 1;
    }
    let ghost rows = edges@;
    let mut i: usize = 0;
    while i < n
        invariant
            n <= 0x7fff_ffff,
            i <= n,
            rows == Seq::new(n as nat, |k: int| row_edge(k)),
            edges@ == rows + links_upto(n as int, i as int),
        decreases n - i,
    {
        let ghost before = edges@;
        let mut j: usize = i + 1;
        while j < n
            invariant
                n <= 0x7fff_ffff,
                i < n,
                i + 1 <= j <= n,
                edges@ == before + links_from(i as int, j as int),
            decreases n - j,
        {
            edges.push(Edge { from: 2 * i, to: 2 * j });
            edges.push(Edge { from: 2 * i, to: 2 * j + 1 });
            edges.push(Edge { from: 2 * i + 1, to: 2 * j });
            edges.push(Edge { from: 2 * i + 1, to: 2 * j + 1 });
            assert(edges@ =~= before + links_from(i as int, j + 1));
            j = j + 1;
        }
        assert(edges@ =~= rows + links_upto(n as int, i + 1));
        i = i + 1;
    }
    RowGraph { vertex_count: 2 * n, edges }
}

/// The network over `n` rows has `n` row edges and four links for each pair
/// of rows.
pub proof fn lemma_row_graph_edge_count(n: int)
    requires
        0 <= n,
    ensures
        row_graph_edges(n).len() == n + 2 * n * (n - 1),
{
    lemma_links_upto_len(n, n);
    assert(2 * n * (2 * n - n - 1) == 2 * n * (n - 1)) by (nonlinear_arith);
}

proof fn lemma_links_from_contains(i: int, j: int, k: int, e: Edge)
    requires
        i < k < j,
        link_quad(i, k).contains(e),
    ensures
        links_from(i, j).contains(e),
    decreases j - i,
{
    if k == j - 1 {
        let q = link_quad(i, k);
        let idx = choose|t: int| 0 <= t < q.len() && q[t] == e;
        let s = links_from(i, j);
        assert(s[links_from(i, j - 1).len() + idx] == e);
    } else {
        lemma_links_from_contains(i, j - 1, k, e);
        let p = links_from(i, j - 1);
        let idx = choose|t: int| 0 <= t < p.len() && p[t] == e;
        assert(links_from(i, j)[idx] == e);
    }
}

proof fn lemma_links_upto_contains(n: int, u: int, i: int, k: int, e: Edge)
    requires
        0 <= i < u <= n,
        i < k < n,
        link_quad(i, k).contains(e),
    ensures
        links_upto(n, u).contains(e),
    decreases u,
{
    if i == u - 1 {
        lemma_links_from_contains(i, n, k, e);
        let p = links_from(i, n);
        let idx = choose|t: int| 0 <= t < p.len() && p[t] == e;
        assert(links_upto(n, u)[links_upto(n, u - 1).len() + idx] == e);
    } else {
        lemma_links_upto_contains(n, u - 1, i, k, e);
        let p = links_upto(n, u - 1);
        let idx = choose|t: int| 0 <= t < p.len() && p[t] == e;
        assert(links_upto(n, u)[idx] == e);
    }
}

/// Every end of a row is linked to every end of every later row.
pub proof fn lemma_row_graph_links_all_ends(n: int, i: int, j: int, end_i: int, end_j: int)
    requires
        0 <= i < j < n,
        0 <= end_i <= 1,
        0 <= end_j <= 1,
    ensures
        row_graph_edges(n).contains(Edge { from: (2 * i + end_i) as usize, to: (2 * j + end_j) as usize }),
{
    let e = Edge { from: (2 * i + end_i) as usize, to: (2 * j + end_j) as usize };
    let q = link_quad(i, j);
    assert(q[2 * end_i + end_j] == e);
    lemma_links_upto_contains(n, n, i, j, e);
    let p = links_upto(n, n);
    let idx = choose|t: int| 0 <= t < p.len() && p[t] == e;
    assert(row_graph_edges(n)[n + idx] == e);
}

/// A row visited by a path: its index, and whether it is driven from its end
/// back to its start.
#[derive(Debug, Clone, Copy, PartialEq, Eq, Structural)]
pub struct RowVisit {
    pub row: usize,
    pub reversed: bool,
}

/// The row driven by a step from vertex `u` to vertex `v`, if the step runs
/// along a row edge.
pub open spec fn step_row(u: int, v: int) -> Option<RowVisit> {
    if u / 2 == v / 2 && u != v {
        Some(RowVisit { row: (u / 2) as usize, reversed: u % 2 == 1 })
    } else {
        None
    }
}

/// Whether `visits` already holds row `row`.
pub open spec fn has_row(visits: Seq<RowVisit>, row: usize) -> bool {
    exists|k: int| 0 <= k < visits.len() && #[trigger] visits[k].row == row
}

/// Rows driven along the first `k` steps of a path, each kept at its first
/// visit.
pub open spec fn path_rows(path: Seq<usize>, k: int) -> Seq<RowVisit>
    decreases k,
{
    if k <= 0 {
        Seq::empty()
    } else {
        let prev = path_rows(path, k - 1);
        match step_row(path[k - 1] as int, path[k] as int) {
            Some(visit) => if has_row(prev, visit.row) { prev } else { prev.push(visit) },
            None => prev,
        }
    }
}

/// Identifiers as plain character sequences.
pub open spec fn string_views(s: Seq<String>) -> Seq<Seq<char>> {
    s.map_values(|x: String| x@)
}

/// Whether some row of `visits` carries identifier `uuid` (`uuids[r]` is the
/// identifier of row `r`).
pub open spec fn has_uuid(visits: Seq<RowVisit>, uuids: Seq<Seq<char>>, uuid: Seq<char>) -> bool {
    exists|k: int| 0 <= k < visits.len() && uuids[#[trigger] visits[k].row as int] == uuid
}

/// Order of rows for a shortest path from vertex `start` to vertex `goal`:
/// the rows the path drives, in order; the start row when it drives none; and
/// the goal row when no listed row carries the goal row's identifier. A row
/// entered at its end vertex is driven reversed.
pub open spec fn shortest_path_rows(path: Seq<usize>, start: usize, goal: usize, uuids: Seq<Seq<char>>) -> Seq<RowVisit> {
    let driven = if path.len() >= 2 { path_rows(path, path.len() - 1) } else { Seq::empty() };
    let with_start = if driven.len() == 0 {
        seq![RowVisit { row: start / 2, reversed: start % 2 == 1 }]
    } else {
        driven
    };
    if has_uuid(with_start, uuids, uuids[(goal / 2) as int]) {
        with_start
    } else {
        with_start.push(RowVisit { row: goal / 2, reversed: goal % 2 == 1 })
    }
}

fn contains_row(visits: &Vec<RowVisit>, row: usize) -> (r: bool)
    ensures
        r == has_row(visits@, row),
{
    let mut k: usize = 0;
    while k < visits.len()
        invariant
            k <= visits.len(),
            forall|t: int| 0 <= t < k ==> #[trigger] visits@[t].row != row,
        decreases visits.len() - k,
    {
        if visits[k].row == row {
            return true;
        }
        k = k + 1;
    }
    false
}

fn contains_uuid(visits: &Vec<RowVisit>, uuids: &Vec<String>, uuid: &String) -> (r: bool)
    requires
        forall|t: int| 0 <= t < visits.len() ==> #[trigger] visits@[t].row < uuids.len(),
    ensures
        r == has_uuid(visits@, string_views(uuids@), uuid@),
{
    let ghost us = string_views(uuids@);
    let mut k: usize = 0;
    while k < visits.len()
        invariant
            us == string_views(uuids@),
            forall|t: int| 0 <= t < visits.len() ==> #[trigger] visits@[t].row < uuids.len(),
            k <= visits.len(),
            forall|t: int| 0 <= t < k ==> us[#[trigger] visits@[t].row as int] != uuid@,
        decreases visits.len() - k,
    {
        let row = visits[k].row;
        if uuids[row] == *uuid {
            assert(us[visits@[k as int].row as int] == uuid@);
            return true;
        }
        k = k + 1;
    }
    false
}

/// Rows visited by a vertex path through the routing network (see
/// `shortest_path_rows`); `uuids[r]` is the identifier of row `r`, whose
/// vertices are `2r` and `2r + 1`.
pub fn rows_along_path(path: &Vec<usize>, start: usize, goal: usize, uuids: &Vec<String>) -> (out: Vec<RowVisit>)
    requires
        start / 2 < uuids.len(),
        goal / 2 < uuids.len(),
        forall|i: int| 0 <= i < path.len() ==> #[trigger] path[i] / 2 < uuids.len(),
    ensures
        out@ == shortest_path_rows(path@, start, goal, string_views(uuids@)),
{
    let mut out: Vec<RowVisit> = Vec::new();
    let ghost driven = if path.len() >= 2 { path_rows(path@, path.len() - 1) } else { Seq::empty() };
    if path.len() >= 2 {
        let mut k: usize = 1;
        while k < path.len()
            invariant
                1 <= k <= path.len(),
                forall|i: int| 0 <= i < path.len() ==> #[trigger] path[i] / 2 < uuids.len(),
                out@ == path_rows(path@, k - 1),
                forall|t: int| 0 <= t < out.len() ==> #[trigger] out@[t].row < uuids.len(),
            decreases path.len() - k,
        {
            let u = path[k - 1];
            let v = path[k];
            if u / 2 == v / 2 && u != v {
                let visit = RowVisit { row: u / 2, reversed: u % 2 == 1 };
                assert(step_row(u as int, v as int) == Some(visit));
                if !contains_row(&out, visit.row) {
                    out.push(visit);
                }
            } else {
                assert(step_row(u as int, v as int) is None);
            }
            assert(out@ == path_rows(path@, k as int));
            k = k + 1;
        }
    }
    assert(out@ == driven);
    if out.len() == 0 {
        out.push(RowVisit { row: start / 2, reversed: start % 2 == 1 });
        assert(out@ =~= seq![RowVisit { row: start / 2, reversed: start % 2 == 1 }]);
    }
    let ghost with_start = out@;
    if !contains_uuid(&out, uuids, &uuids[goal / 2]) {
        out.push(RowVisit { row: goal / 2, reversed: goal % 2 == 1 });
        assert(out@ =~= with_start.push(RowVisit { row: goal / 2, reversed: goal % 2 == 1 }));
    }
    out
}

/// No row is listed twice.
pub proof fn lemma_path_rows_distinct(path: Seq<usize>, k: int)
    requires
        0 <= k < path.len(),
    ensures
        forall|a: int, b: int| 0 <= a < b < path_rows(path, k).len() ==> #[trigger] path_rows(path, k)[a].row != #[trigger] path_rows(path, k)[b].row,
    decreases k,
{
    if k > 0 {
        lemma_path_rows_distinct(path, k - 1);
        let prev = path_rows(path, k - 1);
        let cur = path_rows(path, k);
        match step_row(path[k - 1] as int, path[k] as int) {
            Some(visit) => {
                if !has_row(prev, visit.row) {
                    assert forall|a: int, b: int| 0 <= a < b < cur.len() implies #[trigger] cur[a].row != #[trigger] cur[b].row by {
                        if b == prev.len() {
                            assert(cur[b] == visit);
                            assert(cur[a] == prev[a]);
                            if prev[a].row == visit.row {
                                assert(has_row(prev, visit.row));
                            }
                        } else {
                            assert(cur[a] == prev[a] && cur[b] == prev[b]);
                        }
                    }
                }
            },
            None => {},
        }
    }
}

/// Positions `i < upto` whose kind is a work row, in order.
pub open spec fn row_positions(kinds: Seq<SwathType>, upto: int) -> Seq<usize>
    decreases upto,
{
    if upto <= 0 {
        Seq::empty()
    } else if kinds[upto - 1] == SwathType::Swath {
        row_positions(kinds, upto - 1).push((upto - 1) as usize)
    } else {
        row_positions(kinds, upto - 1)
    }
}

/// The routed rows among the first `upto` segments are exactly the segments of
/// kind `Swath`, each once, in increasing order: connectors, headland pieces
/// and detours around obstacles are never routed rows.
pub proof fn lemma_row_positions_are_the_work_rows(kinds: Seq<SwathType>, upto: int)
    requires
        0 <= upto <= kinds.len(),
        upto <= usize::MAX + 1,
    ensures
        forall|i: int| 0 <= i < upto ==> (#[trigger] row_positions(kinds, upto).contains(i as usize) <==> kinds[i]
            == SwathType::Swath),
        forall|a: int, b: int|
            0 <= a < b < row_positions(kinds, upto).len() ==> #[trigger] row_positions(kinds, upto)[a]
                < #[trigger] row_positions(kinds, upto)[b],
    decreases upto,
{
    if upto > 0 {
        lemma_row_positions_are_the_work_rows(kinds, upto - 1);
        lemma_row_positions_bounds(kinds, upto - 1);
        let prev = row_positions(kinds, upto - 1);
        let cur = row_positions(kinds, upto);
        assert forall|i: int| 0 <= i < upto implies (#[trigger] cur.contains(i as usize) <==> kinds[i]
            == SwathType::Swath) by {
            if kinds[upto - 1] == SwathType::Swath {
                assert(cur == prev.push((upto - 1) as usize));
                if i < upto - 1 {
                    if cur.contains(i as usize) {
                        let a = choose|a: int| 0 <= a < cur.len() && cur[a] == i as usize;
                        if a == prev.len() {
                            assert(cur[a] == (upto - 1) as usize);
                        } else {
                            assert(prev[a] == i as usize);
                            assert(prev.contains(i as usize));
                        }
                    }
                    if prev.contains(i as usize) {
                        let a = choose|a: int| 0 <= a < prev.len() && prev[a] == i as usize;
                        assert(cur[a] == i as usize);
                    }
                } else {
                    assert(cur[cur.len() - 1] == i as usize);
                }
            } else {
                assert(cur == prev);
                if i == upto - 1 && prev.contains(i as usize) {
                    let a = choose|a: int| 0 <= a < prev.len() && prev[a] == i as usize;
                    assert(prev[a] < upto - 1);
                }
            }
        }
        assert forall|a: int, b: int| 0 <= a < b < cur.len() implies #[trigger] cur[a] < #[trigger] cur[b] by {
            if kinds[upto - 1] == SwathType::Swath && b == prev.len() {
                assert(cur[a] == prev[a]);
                assert(prev[a] < upto - 1);
            } else if kinds[upto - 1] == SwathType::Swath {
                assert(cur[a] == prev[a] && cur[b] == prev[b]);
            }
        }
    }
}

proof fn lemma_row_positions_bounds(kinds: Seq<SwathType>, upto: int)
    requires
        0 <= upto <= kinds.len(),
    ensures
        row_positions(kinds, upto).len() <= upto,
        forall|i: int| 0 <= i < row_positions(kinds, upto).len() ==> #[trigger] row_positions(kinds, upto)[i] < upto,
    decreases upto,
{
    if upto > 0 {
        lemma_row_positions_bounds(kinds, upto - 1);
    }
}

/// The routing network of a list of segments: the positions of its work rows
/// (connectors and other segments are left out), one line per work row, and
/// the row graph over them.
#[derive(Debug, Clone, PartialEq, Eq)]
pub struct Nety {
    pub rows: Vec<usize>,
    pub ab_lines: Vec<ABLine>,
    pub graph: RowGraph,
}

impl Nety {
    /// Network over the segments with kinds `kinds` and identifiers `uuids`.
    /// Line `i` stands for the `i`-th work row, between graph vertices `2i`
    /// and `2i + 1`.
    pub fn new(kinds: &Vec<SwathType>, uuids: &Vec<String>) -> (r: Nety)
        requires
            kinds.len() == uuids.len(),
            kinds.len() <= 0x7fff_ffff,
        ensures
            r.rows@ == row_positions(kinds@, kinds.len() as int),
            forall|i: int| 0 <= i < kinds.len() ==> (#[trigger] r.rows@.contains(i as usize) <==> kinds[i]
                == SwathType::Swath),
            r.ab_lines.len() == r.rows.len(),
            forall|i: int|
                0 <= i < r.ab_lines.len() ==> {
                    &&& #[trigger] r.ab_lines[i].a == 2 * i
                    &&& r.ab_lines[i].b == 2 * i + 1
                    &&& r.ab_lines[i].uuid@ == uuids[r.rows[i] as int]@
                    &&& r.ab_lines[i].line_id == i
                },
            r.graph.vertex_count == 2 * r.rows.len(),
            r.graph.edges@ == row_graph_edges(r.rows.len() as int),
    {
        let mut rows: Vec<usize> = Vec::new();
        let mut ab_lines: Vec<ABLine> = Vec::new();
        let mut i: usize = 0;
        while i < kinds.len()
            invariant
                kinds.len() == uuids.len(),
                kinds.len() <= 0x7fff_ffff,
                i <= kinds.len(),
                rows@ == row_positions(kinds@, i as int),
                ab_lines.len() == rows.len(),
                rows.len() <= i,
                forall|k: int|
                    0 <= k < ab_lines.len() ==> {
                        &&& #[trigger] ab_lines[k].a == 2 * k
                        &&& ab_lines[k].b == 2 * k + 1
                        &&& ab_lines[k].uuid@ == uuids[rows[k] as int]@
                        &&& ab_lines[k].line_id == k
                    },
            decreases kinds.len() - i,
        {
            proof {
                lemma_row_positions_bounds(kinds@, i as int);
            }
            if kinds[i] == SwathType::Swath {
                let index = rows.len();
                rows.push(i);
                ab_lines.push(ABLine::new(2 * index, 2 * index + 1, uuids[i].clone(), index));
            }
            i = i + 1;
        }
        proof {
            lemma_row_positions_bounds(kinds@, kinds.len() as int);
            lemma_row_positions_are_the_work_rows(kinds@, kinds.len() as int);
        }
        let graph = row_graph(rows.len());
        Nety { rows, ab_lines, graph }
    }

    /// Number of graph vertices: two per work row.
    pub fn num_vertices(&self) -> (r: usize)
        ensures
            r == self.graph.vertex_count,
    {
        self.graph.vertex_count
    }

    /// Number of graph edges.
    pub fn num_edges(&self) -> (r: usize)
        ensures
            r == self.graph.edges.len(),
    {
        self.graph.edges.len()
    }

    /// The row graph of the network.
    pub fn graph(&self) -> (r: &RowGraph)
        ensures
            r == &self.graph,
    {
        &self.graph
    }

    /// The lines of the work rows, in order.
    pub fn ab_lines(&self) -> (r: &Vec<ABLine>)
        ensures
            r == &self.ab_lines,
    {
        &self.ab_lines
    }

    /// The lines of the work rows, in order.
    pub fn get_ab_lines(&self) -> (r: &Vec<ABLine>)
        ensures
            r == &self.ab_lines,
    {
        &self.ab_lines
    }
}

} // verus!
