use maptrax::field::SwathType;
use maptrax::graph::{row_graph, rows_along_path, ABLine, Edge, Nety, RowVisit};

#[test]
fn row_graph_links_every_pair_of_row_ends() {
    let g = row_graph(3);
    assert_eq!(g.vertex_count, 6);
    assert_eq!(g.edges.len(), 3 + 2 * 3 * 2);
    assert_eq!(g.edges[0], Edge { from: 0, to: 1 });
    assert_eq!(g.edges[2], Edge { from: 4, to: 5 });
    assert_eq!(g.edges[3], Edge { from: 0, to: 2 });
    assert_eq!(g.edges[6], Edge { from: 1, to: 3 });
    assert_eq!(g.edges[14], Edge { from: 3, to: 5 });
}

#[test]
fn empty_network() {
    let g = row_graph(0);
    assert_eq!(g.vertex_count, 0);
    assert!(g.edges.is_empty());
}

#[test]
fn path_rows_follow_row_edges_once() {
    // 0 -> 1 drives row 0 forward, 1 -> 3 links, 3 -> 2 drives row 1 backward,
    // 2 -> 0 links, 0 -> 1 drives row 0 again (ignored)
    let out = rows_along_path(&vec![0, 1, 3, 2, 0, 1], 0, 2, &ids(&["a", "b"]));
    assert_eq!(out, vec![RowVisit { row: 0, reversed: false }, RowVisit { row: 1, reversed: true }]);
}

fn ids(names: &[&str]) -> Vec<String> {
    names.iter().map(|n| n.to_string()).collect()
}

#[test]
fn goal_row_sharing_an_identifier_with_a_listed_row_is_not_added() {
    let out = rows_along_path(&vec![1, 4], 1, 4, &ids(&["x", "b", "x"]));
    assert_eq!(out, vec![RowVisit { row: 0, reversed: true }]);
}

#[test]
fn path_without_row_edges_uses_start_and_goal_rows() {
    let out = rows_along_path(&vec![1, 4], 1, 4, &ids(&["a", "b", "c"]));
    assert_eq!(out, vec![RowVisit { row: 0, reversed: true }, RowVisit { row: 2, reversed: false }]);
    let same = rows_along_path(&vec![3], 3, 2, &ids(&["a", "b"]));
    assert_eq!(same, vec![RowVisit { row: 1, reversed: true }]);
}

#[test]
fn ab_lines_match_rows_by_identifier() {
    let line = ABLine::new(4, 5, "row_7".to_string(), 2);
    assert_eq!(line.a, 4);
    assert_eq!(line.b, 5);
    assert_eq!(line.line_id, 2);
    assert!(line.equal(&"row_7".to_string()));
    assert!(!line.equal(&"row_8".to_string()));
}

#[test]
fn nety_construction_uses_all_swaths() {
    let kinds = vec![SwathType::Swath; 5];
    let uuids: Vec<String> = (0..5).map(|i| format!("swath_{i}")).collect();
    let nety = Nety::new(&kinds, &uuids);

    assert_eq!(nety.rows.len(), kinds.len());
    assert_eq!(nety.get_ab_lines().len(), kinds.len());
    assert_eq!(nety.num_vertices(), kinds.len() * 2);
    assert!(nety.num_edges() >= kinds.len());
}

#[test]
fn nety_leaves_out_connectors() {
    let kinds = vec![SwathType::Swath, SwathType::Connection, SwathType::Swath];
    let uuids = vec!["a".to_string(), "c".to_string(), "b".to_string()];
    let nety = Nety::new(&kinds, &uuids);
    assert_eq!(nety.rows, vec![0, 2]);
    assert_eq!(nety.ab_lines[1].uuid, "b");
    assert_eq!(nety.ab_lines[1].a, 2);
    assert_eq!(nety.ab_lines[1].b, 3);
    assert_eq!(nety.num_edges(), 2 + 4);
    assert_eq!(nety.graph().vertex_count, 4);
    assert_eq!(nety.graph().edges.len(), 6);
    assert_eq!(nety.ab_lines(), nety.get_ab_lines());
}

#[test]
fn ab_line_creation_and_properties_work() {
    let line = ABLine::new(0, 1, "test_line".to_string(), 1);
    assert_eq!((line.a, line.b, line.line_id), (0, 1, 1));
    assert!(line.equal(&"test_line".to_string()));
    assert!(!line.equal(&"other_line".to_string()));
}
