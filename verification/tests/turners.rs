use maptrax::turners::{rs_path_name, rs_segments, DubinsSegmentType, DubinsWord, ReedsSheppSegmentType, Steer};

#[test]
fn dubins_words_in_planning_order() {
    let names: Vec<&str> = DubinsWord::all().iter().map(|w| w.name()).collect();
    assert_eq!(names, vec!["LSL", "RSR", "RSL", "LSR", "RLR", "LRL"]);
}

#[test]
fn dubins_word_segments_match_names() {
    assert_eq!(
        DubinsWord::Rsl.segment_types(),
        vec![DubinsSegmentType::Right, DubinsSegmentType::Straight, DubinsSegmentType::Left]
    );
    assert_eq!(
        DubinsWord::Lrl.segment_types(),
        vec![DubinsSegmentType::Left, DubinsSegmentType::Right, DubinsSegmentType::Left]
    );
}

#[test]
fn reeds_shepp_segment_from_steering_and_direction() {
    assert_eq!(ReedsSheppSegmentType::from_steer(Steer::Left, true), Some(ReedsSheppSegmentType::LeftForward));
    assert_eq!(ReedsSheppSegmentType::from_steer(Steer::Straight, false), Some(ReedsSheppSegmentType::StraightBackward));
    assert_eq!(ReedsSheppSegmentType::from_steer(Steer::Nop, true), None);
    assert!(ReedsSheppSegmentType::RightForward.is_forward());
    assert!(!ReedsSheppSegmentType::RightBackward.is_forward());
}

#[test]
fn reeds_shepp_word_stops_at_the_first_nop() {
    let steers = vec![Steer::Left, Steer::Right, Steer::Straight, Steer::Nop, Steer::Left];
    let forward = vec![true, false, true, true, true];
    let segments = rs_segments(&steers, &forward);
    assert_eq!(
        segments,
        vec![
            ReedsSheppSegmentType::LeftForward,
            ReedsSheppSegmentType::RightBackward,
            ReedsSheppSegmentType::StraightForward,
        ]
    );
    assert_eq!(rs_path_name(&segments), "LrS");
}

#[test]
fn reeds_shepp_names_use_case_for_direction() {
    let segments = vec![
        ReedsSheppSegmentType::LeftBackward,
        ReedsSheppSegmentType::StraightBackward,
        ReedsSheppSegmentType::RightForward,
    ];
    assert_eq!(rs_path_name(&segments), "lsR");
    assert_eq!(rs_path_name(&vec![]), "");
}
