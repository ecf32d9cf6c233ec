use maptrax::field::{create_ring, swath_type_name, Field, Part, Ring, SwathObjective, SwathState, SwathType};
use maptrax::ids::IdSource;
use maptrax::MaptraxError;

fn ring(uuid: &str, finished: bool) -> Ring {
    Ring { uuid: uuid.to_string(), finished, vertex_count: 4 }
}

fn sample_part() -> Part {
    Part {
        swaths: vec![
            SwathState { id: 1, kind: SwathType::Swath, finished: false },
            SwathState { id: -1, kind: SwathType::Connection, finished: false },
            SwathState { id: 2, kind: SwathType::Swath, finished: true },
            SwathState { id: 1, kind: SwathType::Swath, finished: false },
        ],
        headlands: vec![ring("h0", true), ring("h1", false), ring("h2", false)],
    }
}

#[test]
fn swath_type_names() {
    assert_eq!(SwathType::Headland.name(), "headland");
    assert_eq!(swath_type_name(SwathType::Connection), "connection");
    assert_eq!(swath_type_name(SwathType::Swath), "swath");
    assert_eq!(swath_type_name(SwathType::Around), "around");
}

#[test]
fn objective_scores_on_counts() {
    assert!(SwathObjective::CoverageScore.maximizes());
    assert!(!SwathObjective::TotalSwathLength.maximizes());
    assert_eq!(SwathObjective::ApproxMinSwathCount.count_score(7), Some(7));
    assert_eq!(SwathObjective::ExactSwathCount(5).count_score(3), Some(2));
    assert_eq!(SwathObjective::ExactSwathCount(5).count_score(9), Some(4));
    assert_eq!(SwathObjective::TotalSwathLength.count_score(3), None);
}

#[test]
fn part_marks_the_first_work_row_with_an_id() {
    let mut part = sample_part();
    assert!(part.set_swath_finished(1, true));
    assert!(part.swaths[0].finished);
    assert!(!part.swaths[3].finished);
    assert_eq!(part.finished_swath_count(), 2);
    assert_eq!(part.remaining_swath_count(), 1);
    // the connector carries id -1 but is not a work row
    assert!(!part.set_swath_finished(-1, true));
    assert!(!part.swaths[1].finished);
}

#[test]
fn part_lists_rows_by_state() {
    let part = sample_part();
    assert_eq!(part.work_swaths(), vec![0, 2, 3]);
    assert_eq!(part.finished_swaths(), vec![2]);
    assert_eq!(part.remaining_swaths(), vec![0, 3]);
    assert_eq!(part.remaining_headlands(), vec![1, 2]);
}

#[test]
fn marking_all_rows_leaves_connectors() {
    let mut part = sample_part();
    part.set_all_swaths_finished(true);
    assert_eq!(part.finished_swath_count(), 3);
    assert_eq!(part.remaining_swath_count(), 0);
    assert!(!part.swaths[1].finished);
    part.set_all_swaths_finished(false);
    assert_eq!(part.remaining_swath_count(), 3);
}

#[test]
fn field_reports_missing_parts() {
    let mut field = Field { parts: vec![sample_part()] };
    assert!(field.part(0).is_ok());
    assert_eq!(field.part(3), Err(MaptraxError::MissingPart(3)));
    assert_eq!(field.set_swath_finished(1, 2, false), Err(MaptraxError::MissingPart(1)));
    assert_eq!(field.set_swath_finished(0, 2, false), Ok(true));
    assert_eq!(field.finished_swath_count(), 0);
    assert_eq!(field.remaining_swath_count(), 3);
}

#[test]
fn rings_need_vertices_and_get_fresh_ids() {
    let mut ids = IdSource::new();
    assert_eq!(create_ring(0, String::new(), &mut ids), Err(MaptraxError::EmptyPolygon));
    assert_eq!(ids.next, 1);
    let named = create_ring(4, "field_boundary".to_string(), &mut ids).unwrap();
    assert_eq!(named.uuid, "field_boundary");
    assert!(!named.finished);
    assert_eq!(ids.next, 1);
    let fresh = create_ring(3, String::new(), &mut ids).unwrap();
    assert_eq!(fresh.uuid, "ring_1");
    assert_eq!(fresh.vertex_count, 3);
    assert_eq!(ids.next, 2);
}

#[test]
fn ids_count_up_and_wrap() {
    let mut ids = IdSource::new();
    assert_eq!(ids.next_id("part"), "part_1");
    assert_eq!(ids.next_id("ring"), "ring_2");
    let mut late = IdSource { next: 1234567890 };
    assert_eq!(late.next_id("x"), "x_1234567890");
    let mut last = IdSource { next: u64::MAX };
    assert_eq!(last.next_id("s"), format!("s_{}", u64::MAX));
    assert_eq!(last.next, 0);
}

// The generated polder carries two hundred work rows with ids 0..200.
fn polder_field() -> Field {
    let swaths = (0..200).map(|id| SwathState { id, kind: SwathType::Swath, finished: false }).collect();
    Field { parts: vec![Part { swaths, headlands: vec![ring("polder_headland", false)] }] }
}

#[test]
fn marking_rows_finished_moves_them_between_the_two_counts() {
    let mut field = polder_field();
    let total = field.remaining_swath_count();
    assert!(total > 0);
    assert_eq!(field.finished_swath_count(), 0);

    for id in 0..10 {
        assert!(field.set_swath_finished(0, id, true).expect("part exists"), "no row carried id {id}");
    }

    assert_eq!(field.finished_swath_count(), 10);
    assert_eq!(field.remaining_swath_count(), total - 10);

    field.set_swath_finished(0, 3, false).expect("part exists");
    assert_eq!(field.finished_swath_count(), 9);
}

#[test]
fn marking_an_unknown_row_reports_false_and_a_missing_part_errors() {
    let mut field = polder_field();
    assert!(!field.set_swath_finished(0, 9_999, true).expect("part"));
    assert!(field.set_swath_finished(7, 0, true).is_err());
}

#[test]
fn error_messages() {
    assert_eq!(MaptraxError::EmptyPolygon.message(), "polygon has no vertices");
    assert_eq!(MaptraxError::InvalidPolygon("ring requires at least 3 points").message(), "invalid polygon: ring requires at least 3 points");
    assert_eq!(MaptraxError::MissingPart(12).message(), "part index 12 is out of bounds");
    assert_eq!(MaptraxError::MissingField.message(), "field has not been set");
    assert_eq!(MaptraxError::InfeasiblePlan("too few headlands".to_string()).message(), "infeasible plan: too few headlands");
}

#[test]
fn field_parts_are_listed_in_order() {
    let field = polder_field();
    assert_eq!(field.parts().len(), 1);
    assert_eq!(field.get_parts(), field.parts());
    assert_eq!(field.parts()[0].headlands.len(), 1);
}
