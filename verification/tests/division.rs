use maptrax::division::{
    assign_headland_rings, banded_stripe_by_count, block_by_count, distribute_remainder, equal_count_slices,
    merge_band_buckets, optimize_candidates, stripe_with_quotas, AssignPattern, Balance, Divy, HeadlandMode,
};
use maptrax::assign::buckets_from_owners;

#[test]
fn equal_count_slices_puts_larger_slices_first() {
    assert_eq!(equal_count_slices(10, 3), vec![(0, 4), (4, 7), (7, 10)]);
    assert_eq!(equal_count_slices(6, 3), vec![(0, 2), (2, 4), (4, 6)]);
    assert_eq!(equal_count_slices(2, 3), vec![(0, 1), (1, 2), (2, 2)]);
}

#[test]
fn equal_count_slices_degenerate_inputs_give_one_slice() {
    assert_eq!(equal_count_slices(0, 3), vec![(0, 0)]);
    assert_eq!(equal_count_slices(5, 0), vec![(0, 5)]);
}

#[test]
fn remainder_goes_round_robin_in_order() {
    assert_eq!(distribute_remainder(vec![3, 3, 3], &vec![2, 0, 1], 10), vec![3, 3, 4]);
    assert_eq!(distribute_remainder(vec![1, 1], &vec![1, 0], 5), vec![2, 3]);
}

#[test]
fn remainder_leaves_full_or_orderless_floors_alone() {
    assert_eq!(distribute_remainder(vec![2, 3], &vec![0, 1], 5), vec![2, 3]);
    assert_eq!(distribute_remainder(vec![1, 1], &vec![], 5), vec![1, 1]);
}

#[test]
fn stripe_by_one_alternates() {
    assert_eq!(stripe_with_quotas(6, &vec![3, 3], 1), vec![vec![0, 2, 4], vec![1, 3, 5]]);
}

#[test]
fn stripe_skips_machines_whose_quota_is_met() {
    // rows 0,1 -> m0; 2,3 -> m1; 4 -> m0 (now full); 5 -> m1
    assert_eq!(stripe_with_quotas(6, &vec![3, 3], 2), vec![vec![0, 1, 4], vec![2, 3, 5]]);
    // unequal quotas: m0 takes 1, m1 the rest
    assert_eq!(stripe_with_quotas(4, &vec![1, 3], 1), vec![vec![0], vec![1, 2, 3]]);
}

#[test]
fn block_gives_leftovers_to_the_last_machine() {
    assert_eq!(block_by_count(5, &vec![2, 2]), vec![vec![0, 1], vec![2, 3, 4]]);
    assert_eq!(block_by_count(4, &vec![1, 3]), vec![vec![0], vec![1, 2, 3]]);
}

#[test]
fn rings_round_robin_one_per_machine() {
    assert_eq!(
        assign_headland_rings(HeadlandMode::OnePerMachine, &vec![4, 4, 4], 2),
        Some(vec![vec![0, 2], vec![1]])
    );
    // a ring with fewer than two points is skipped
    assert_eq!(
        assign_headland_rings(HeadlandMode::OnePerMachine, &vec![4, 1, 4], 2),
        Some(vec![vec![0, 2], vec![]])
    );
}

#[test]
fn dedicated_rings_go_to_one_machine_clamped() {
    assert_eq!(
        assign_headland_rings(HeadlandMode::Dedicated { machine: 5 }, &vec![4, 4, 4], 2),
        Some(vec![vec![], vec![0, 1, 2]])
    );
    assert_eq!(
        assign_headland_rings(HeadlandMode::Dedicated { machine: 0 }, &vec![4, 4], 3),
        Some(vec![vec![0, 1], vec![], vec![]])
    );
}

#[test]
fn zone_split_and_unassigned_rings() {
    assert_eq!(assign_headland_rings(HeadlandMode::SplitByZone, &vec![4], 2), None);
    assert_eq!(assign_headland_rings(HeadlandMode::Unassigned, &vec![4], 2), Some(vec![vec![], vec![]]));
    assert_eq!(assign_headland_rings(HeadlandMode::SplitByZone, &vec![], 2), Some(vec![vec![], vec![]]));
}

#[test]
fn headland_mode_defaults_to_one_per_machine() {
    assert_eq!(HeadlandMode::default(), HeadlandMode::OnePerMachine);
    assert_ne!(Balance::ByCount, Balance::ByLength);
}

#[test]
fn banded_stripe_rotates_the_starting_machine_per_band() {
    let out = banded_stripe_by_count(6, 2, &vec![3, 3], &vec![vec![2, 1], vec![2, 1]]);
    assert_eq!(out, vec![vec![0, 2, 4], vec![1, 3, 5]]);
    // a single band is block assignment
    assert_eq!(banded_stripe_by_count(5, 1, &vec![2, 3], &vec![]), vec![vec![0, 1], vec![2, 3, 4]]);
}

#[test]
fn merge_band_buckets_offsets_and_rotates() {
    let out = merge_band_buckets(2, &vec![(0, 2), (2, 4)], &vec![vec![vec![0], vec![1]], vec![vec![0], vec![1]]]);
    assert_eq!(out, vec![vec![0, 3], vec![1, 2]]);
}

#[test]
fn optimizer_candidates_depend_on_machine_count() {
    assert_eq!(optimize_candidates(1), vec![AssignPattern::Block, AssignPattern::Stripe { stride: 1 }]);
    assert_eq!(
        optimize_candidates(3),
        vec![
            AssignPattern::Block,
            AssignPattern::Stripe { stride: 1 },
            AssignPattern::BandedStripe { bands: 2 },
            AssignPattern::BandedStripe { bands: 3 },
        ]
    );
}

#[test]
fn assign_rows_by_count_treats_zero_stride_as_one() {
    assert_eq!(
        Divy::assign_rows_by_count(AssignPattern::Stripe { stride: 0 }, 4, &vec![2, 2], &vec![]),
        vec![vec![0, 2], vec![1, 3]]
    );
    assert_eq!(
        Divy::assign_rows_by_count(AssignPattern::Block, 3, &vec![1, 2], &vec![]),
        vec![vec![0], vec![1, 2]]
    );
}

#[test]
fn buckets_follow_owners() {
    assert_eq!(buckets_from_owners(&vec![1, 0, 1, 2], 3), vec![vec![1], vec![0, 2], vec![3]]);
}

#[test]
fn rejects_empty_machine_list() {
    let err = Divy::plan_rows(AssignPattern::Block, 5, &vec![], &vec![]).unwrap_err();
    assert_eq!(err.message(), "machine count must be greater than zero");
}

#[test]
fn plan_rows_assigns_every_row() {
    let rows = Divy::plan_rows(AssignPattern::Stripe { stride: 1 }, 5, &vec![3, 2], &vec![]).unwrap();
    assert_eq!(rows, vec![vec![0, 2, 4], vec![1, 3]]);
}

// Vertex counts of the three headland rings of the shared test field.
const FIXTURE_RINGS: [usize; 3] = [57, 53, 49];

#[test]
fn default_headland_mode_one_per_machine() {
    let out = assign_headland_rings(HeadlandMode::default(), &FIXTURE_RINGS.to_vec(), 3).unwrap();
    for (index, rings) in out.iter().enumerate() {
        assert_eq!(rings.len(), 1, "machine {index} should own exactly 1 ring, got {}", rings.len());
    }
}

#[test]
fn one_per_machine_with_more_machines_than_rings() {
    let out = assign_headland_rings(HeadlandMode::OnePerMachine, &FIXTURE_RINGS.to_vec(), 5).unwrap();
    assert_eq!(out[0].len(), 1);
    assert_eq!(out[1].len(), 1);
    assert_eq!(out[2].len(), 1);
    assert!(out[3].is_empty());
    assert!(out[4].is_empty());
}

#[test]
fn dedicated_headland_mode_respects_machine_index() {
    let out = assign_headland_rings(HeadlandMode::Dedicated { machine: 2 }, &FIXTURE_RINGS.to_vec(), 3).unwrap();
    assert!(out[0].is_empty());
    assert!(out[1].is_empty());
    assert_eq!(out[2].len(), 3);
}

#[test]
fn none_headland_mode_skips_headland_assignment() {
    let out = assign_headland_rings(HeadlandMode::Unassigned, &FIXTURE_RINGS.to_vec(), 3).unwrap();
    for rings in &out {
        assert!(rings.is_empty());
    }
}

fn assert_each_row_once(buckets: &[Vec<usize>], n: usize) {
    let mut seen = vec![0usize; n];
    for bucket in buckets {
        for w in bucket.windows(2) {
            assert!(w[0] < w[1]);
        }
        for &row in bucket {
            assert!(row < n);
            seen[row] += 1;
        }
    }
    assert!(seen.iter().all(|&c| c == 1), "{seen:?}");
}

#[test]
fn every_pattern_gives_each_row_to_exactly_one_machine() {
    let quotas = vec![4, 3, 3];
    let band_quotas = vec![vec![2, 2, 1], vec![2, 2, 1]];
    for pattern in [
        AssignPattern::Block,
        AssignPattern::Stripe { stride: 1 },
        AssignPattern::Stripe { stride: 2 },
        AssignPattern::BandedStripe { bands: 1 },
        AssignPattern::BandedStripe { bands: 2 },
    ] {
        let rows = Divy::plan_rows(pattern, 10, &quotas, &band_quotas).unwrap();
        assert_eq!(rows.len(), 3);
        assert_each_row_once(&rows, 10);
    }
}

#[test]
fn banded_stripe_rotates_machines_between_bands() {
    let rows = banded_stripe_by_count(10, 2, &vec![4, 3, 3], &vec![vec![2, 2, 1], vec![2, 2, 1]]);
    assert_eq!(rows, vec![vec![0, 3, 7], vec![1, 4, 5, 8], vec![2, 6, 9]]);
    assert_each_row_once(&rows, 10);
}

#[test]
fn dedicated_headlands_go_to_one_clamped_machine_and_unassigned_to_none() {
    let dedicated = assign_headland_rings(HeadlandMode::Dedicated { machine: 7 }, &vec![5, 1, 4], 3).unwrap();
    assert_eq!(dedicated, vec![vec![], vec![], vec![0, 2]]);
    let unassigned = assign_headland_rings(HeadlandMode::Unassigned, &vec![5, 1, 4], 3).unwrap();
    assert_eq!(unassigned, vec![Vec::<usize>::new(), vec![], vec![]]);
}

/// Equal per-machine row quotas, as uniform machine weights give them.
fn uniform_quotas(rows: usize, machines: usize) -> Vec<usize> {
    distribute_remainder(vec![rows / machines; machines], &(0..machines).collect(), rows)
}

#[test]
fn stripe_1_by_count_preserves_total_and_assigns_fairly() {
    // The 100 m wide test field holds 10 rows of 10 m.
    let rows = Divy::plan_rows(AssignPattern::Stripe { stride: 1 }, 10, &uniform_quotas(10, 2), &vec![]).unwrap();
    assert_eq!(rows.len(), 2);
    assert_eq!(rows.iter().map(Vec::len).sum::<usize>(), 10);
    let lens: Vec<usize> = rows.iter().map(Vec::len).collect();
    assert!(lens.iter().max().unwrap() - lens.iter().min().unwrap() <= 1);
}

#[test]
fn stripe_stride_2_interleaves_in_pairs() {
    // 12 rows, 2 machines, stride=2 → pattern: 0 0 1 1 0 0 1 1 0 0 1 1
    let rows = Divy::plan_rows(AssignPattern::Stripe { stride: 2 }, 12, &uniform_quotas(12, 2), &vec![]).unwrap();
    let (m0, m1) = (&rows[0], &rows[1]);
    assert_eq!(m0.len() + m1.len(), 12);
    assert!(m0.len() >= 4 && m1.len() >= 4);
    assert_eq!(m0, &vec![0, 1, 4, 5, 8, 9]);
    // Rows are 10 m apart: each machine's first two rows are adjacent.
    let x_center = |row: usize| 5.0 + 10.0 * row as f64;
    assert!((x_center(m0[0]) - x_center(m0[1])).abs() < 11.0);
    assert!((x_center(m1[0]) - x_center(m1[1])).abs() < 11.0);
}

#[test]
fn block_by_count_clusters_spatially() {
    let rows = Divy::plan_rows(AssignPattern::Block, 10, &uniform_quotas(10, 2), &vec![]).unwrap();
    let (left, right) = (&rows[0], &rows[1]);
    assert!(!left.is_empty() && !right.is_empty());
    let avg = |rows: &Vec<usize>| rows.iter().map(|&r| 10.0 * r as f64).sum::<f64>() / rows.len() as f64;
    assert!((avg(left) - avg(right)).abs() > 5.0, "block should separate machines spatially");
}

#[test]
fn banded_stripe_2_splits_into_two_contiguous_bands_with_internal_stripe() {
    let band_quotas: Vec<Vec<usize>> =
        equal_count_slices(10, 2).into_iter().map(|(start, end)| uniform_quotas(end - start, 2)).collect();
    let rows = Divy::plan_rows(AssignPattern::BandedStripe { bands: 2 }, 10, &uniform_quotas(10, 2), &band_quotas).unwrap();
    assert_eq!(rows.iter().map(Vec::len).sum::<usize>(), 10);
    assert_eq!(rows.len(), 2);
    for (idx, rows) in rows.iter().enumerate() {
        assert!(!rows.is_empty(), "machine {idx} empty");
    }
}

#[test]
fn dividing_with_dedicated_instead_of_unassigned_headlands_changes_only_the_rings() {
    let quotas = uniform_quotas(9, 3);
    let sizes = vec![57, 53, 49];
    let (rows_a, rings_a) = Divy::divide_by_count(HeadlandMode::Dedicated { machine: 0 }, AssignPattern::Block, 9, &quotas, &vec![], &sizes).unwrap();
    let (rows_b, rings_b) = Divy::divide_by_count(HeadlandMode::Unassigned, AssignPattern::Block, 9, &quotas, &vec![], &sizes).unwrap();
    assert_eq!(rows_a, rows_b);
    assert_eq!(rings_a, Some(vec![vec![0, 1, 2], vec![], vec![]]));
    assert_eq!(rings_b, Some(vec![Vec::<usize>::new(), vec![], vec![]]));
    assert!(Divy::divide_by_count(HeadlandMode::Unassigned, AssignPattern::Block, 9, &vec![], &vec![], &sizes).is_err());
}
