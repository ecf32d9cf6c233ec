use maptrax::zones::{merge_wrapped_arc, split_rings_by_zone, zone_arcs, RingArc};

#[test]
fn edges_group_into_arcs_by_zone() {
    // ring of 6 edges: zones 0 0 1 1 0 0
    let out = zone_arcs(&vec![0, 0, 1, 1, 0, 0], 2);
    assert_eq!(out, vec![vec![vec![0, 1, 2], vec![4, 5, 0]], vec![vec![2, 3, 4]]]);
}

#[test]
fn a_zone_without_edges_has_no_arcs() {
    let out = zone_arcs(&vec![2, 2, 0], 3);
    assert_eq!(out, vec![vec![vec![2, 0]], vec![], vec![vec![0, 1, 2]]]);
}

#[test]
fn a_ring_of_fewer_than_two_edges_has_no_arcs() {
    assert_eq!(zone_arcs(&vec![0], 2), vec![Vec::<Vec<usize>>::new(), vec![]]);
}

#[test]
fn wrapped_arc_joins_the_first_onto_the_last() {
    let mut arcs = vec![vec![0, 1, 2], vec![4, 5, 0]];
    merge_wrapped_arc(&mut arcs);
    assert_eq!(arcs, vec![vec![4, 5, 0, 1, 2]]);
    let mut three = vec![vec![0, 1], vec![3, 4], vec![6, 0]];
    merge_wrapped_arc(&mut three);
    assert_eq!(three, vec![vec![3, 4], vec![6, 0, 1]]);
}

#[test]
fn single_active_machine_drives_whole_rings() {
    let out = split_rings_by_zone(3, &vec![1], &vec![3, 0, 2], vec![vec![], vec![], vec![]]);
    assert_eq!(
        out,
        vec![
            vec![],
            vec![RingArc { ring: 0, vertices: vec![0, 1, 2, 0] }, RingArc { ring: 2, vertices: vec![0, 1, 0] }],
            vec![],
        ]
    );
}

#[test]
fn zone_arcs_go_to_the_machines_owning_the_zones() {
    // machines 2 and 0 are active, machine 2 lies lowest
    let ring0 = vec![vec![vec![0, 1, 2]], vec![vec![2, 3, 0]]];
    let ring1 = vec![vec![], vec![vec![1, 2]]];
    let out = split_rings_by_zone(3, &vec![2, 0], &vec![4, 4], vec![ring0, ring1]);
    assert_eq!(
        out,
        vec![
            vec![RingArc { ring: 0, vertices: vec![2, 3, 0] }, RingArc { ring: 1, vertices: vec![1, 2] }],
            vec![],
            vec![RingArc { ring: 0, vertices: vec![0, 1, 2] }],
        ]
    );
}

#[test]
fn no_active_machine_gets_no_headland_work() {
    assert_eq!(split_rings_by_zone(2, &vec![], &vec![4], vec![vec![]]), vec![Vec::<RingArc>::new(), vec![]]);
}

#[test]
fn zone_arcs_drive_every_edge_once_in_its_own_zone() {
    let zones = vec![1, 0, 0, 1, 1, 2, 0];
    let m = zones.len();
    let out = zone_arcs(&zones, 3);
    for edge in 0..m {
        let mut drivers = Vec::new();
        for (z, arcs) in out.iter().enumerate() {
            for (p, arc) in arcs.iter().enumerate() {
                if arc.windows(2).any(|w| w[0] == edge && w[1] == (edge + 1) % m) {
                    drivers.push((z, p));
                }
            }
        }
        assert_eq!(drivers.len(), 1, "edge {edge}");
        assert_eq!(drivers[0].0, zones[edge]);
    }
}

#[test]
fn split_by_zone_covers_each_ring_without_double_counting() {
    // Three machines from left to right; each ring edge is tagged with the
    // zone of its midpoint.
    let ring_edges: Vec<Vec<usize>> = vec![vec![0, 0, 1, 2, 2, 1, 0, 0], vec![0, 1, 2, 2, 1, 0], vec![1, 2, 1, 0]];
    let counts: Vec<usize> = ring_edges.iter().map(Vec::len).collect();
    let per_ring: Vec<Vec<Vec<Vec<usize>>>> = ring_edges
        .iter()
        .map(|zones| {
            let mut arcs = zone_arcs(zones, 3);
            let wrap_zone = zones[0];
            if zones[zones.len() - 1] == wrap_zone && arcs[wrap_zone].len() >= 2 {
                merge_wrapped_arc(&mut arcs[wrap_zone]);
            }
            arcs
        })
        .collect();
    let out = split_rings_by_zone(3, &vec![0, 1, 2], &counts, per_ring);
    let mut driven: Vec<Vec<usize>> = counts.iter().map(|&n| vec![0; n]).collect();
    for arc in out.iter().flatten() {
        let n = counts[arc.ring];
        for pair in arc.vertices.windows(2) {
            assert_eq!(pair[1], (pair[0] + 1) % n);
            driven[arc.ring][pair[0]] += 1;
        }
    }
    let total: usize = driven.iter().flatten().sum();
    assert_eq!(total, counts.iter().sum::<usize>());
    assert!(driven.iter().flatten().all(|&c| c == 1));
}
