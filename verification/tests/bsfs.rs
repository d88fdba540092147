use std::collections::HashMap;

use bsfs::{
    accumulate_entries, bsfs_indices, bsfs_indices_checked, bsfs_indices_strict, bsfs_matrix,
    classify_with, flatten_site, index_populations, n_haps_per_pop, site_to_entry,
    site_to_entry_strict, BsfsError,
};

fn sample_map_two_pops() -> HashMap<usize, String> {
    let mut m: HashMap<usize, String> = HashMap::new();
    m.insert(0, "popA".to_string());
    m.insert(1, "popA".to_string());
    m.insert(2, "popA".to_string());
    m.insert(3, "popA".to_string());
    m.insert(4, "popB".to_string());
    m.insert(5, "popB".to_string());
    m.insert(6, "popB".to_string());
    m.insert(7, "popB".to_string());
    m
}

fn block_calls() -> Vec<Vec<Vec<u32>>> {
    vec![
        vec![vec![0, 1], vec![1, 0], vec![0, 0], vec![1, 1]],
        vec![vec![1, 1], vec![1, 1], vec![1, 1], vec![1, 1]],
        vec![vec![0, 0], vec![0, 1], vec![0, 0], vec![0, 0]],
    ]
}

#[test]
fn flatten_keeps_order_and_length() {
    let site: Vec<Vec<u32>> = vec![vec![0, 0], vec![0, 1], vec![0, 0], vec![0, 1]];
    let flat = flatten_site(site);
    assert_eq!(flat, vec![0, 0, 0, 1, 0, 0, 0, 1]);
}

#[test]
fn flatten_length_additive_ragged() {
    let site: Vec<Vec<u32>> = vec![vec![1], vec![], vec![0, 2, 3]];
    let flat = flatten_site(site);
    assert_eq!(flat, vec![1, 0, 2, 3]);
    assert_eq!(flat.len(), 1 + 0 + 3);
}

#[test]
fn entry_of_single_site() {
    let flat: Vec<u32> = vec![0, 0, 0, 1, 0, 0, 0, 1];
    let entry = site_to_entry(flat, &sample_map_two_pops());
    assert_eq!(entry, vec![1, 1]);
}

#[test]
fn entry_counts_bounded_by_population_sizes() {
    let m = sample_map_two_pops();
    let flat: Vec<u32> = vec![1, 1, 1, 1, 1, 1, 1, 1, 1, 1, 1, 1];
    let entry = site_to_entry(flat, &m);
    let pops = n_haps_per_pop(&m);
    assert_eq!(entry.len(), pops.len());
    let total: usize = pops.iter().map(|p| p.1).sum();
    let entry_sum: usize = entry.iter().sum();
    for (k, p) in pops.iter().enumerate() {
        assert!(entry[k] <= p.1);
    }
    assert!(entry_sum <= total);
}

#[test]
fn unmapped_positions_are_skipped_silently() {
    // positions 8 and 9 have no sample-map entry and are never counted
    let flat: Vec<u32> = vec![1, 1, 1, 1, 1, 1, 1, 1, 1, 1];
    let entry = site_to_entry(flat, &sample_map_two_pops());
    assert_eq!(entry, vec![4, 4]);
}

#[test]
fn strict_mode_reports_first_unmapped_position() {
    let flat: Vec<u32> = vec![1, 1, 1, 1, 1, 1, 1, 1, 1, 1];
    let r = site_to_entry_strict(flat, &sample_map_two_pops());
    assert_eq!(r, Err(BsfsError::IndexError(8)));
}

#[test]
fn strict_mode_accepts_fully_mapped_site() {
    let flat: Vec<u32> = vec![0, 1, 1, 0, 0, 0, 1, 1];
    let r = site_to_entry_strict(flat, &sample_map_two_pops());
    assert_eq!(r, Ok(vec![2, 2]));
}

#[test]
fn indices_of_block() {
    let indices = bsfs_indices(block_calls(), sample_map_two_pops());
    let expected: Vec<Vec<usize>> = vec![vec![2, 2], vec![4, 4], vec![1, 0]];
    assert_eq!(indices, expected);
}

#[test]
fn haps_per_pop_counts_and_order() {
    let pops = n_haps_per_pop(&sample_map_two_pops());
    assert_eq!(
        pops,
        vec![("popA".to_string(), 4), ("popB".to_string(), 4)]
    );
}

#[test]
fn population_order_is_sorted_not_insertion_order() {
    let mut m: HashMap<usize, String> = HashMap::new();
    m.insert(0, "zeta".to_string());
    m.insert(1, "alpha".to_string());
    m.insert(2, "midge".to_string());
    m.insert(3, "alpha".to_string());
    let pops = n_haps_per_pop(&m);
    assert_eq!(
        pops,
        vec![
            ("alpha".to_string(), 2),
            ("midge".to_string(), 1),
            ("zeta".to_string(), 1)
        ]
    );
}

#[test]
fn population_order_deterministic_across_entry_orders() {
    let mut m1: HashMap<usize, String> = HashMap::new();
    for (i, p) in [(0, "popB"), (1, "popA"), (2, "popB"), (3, "popA")] {
        m1.insert(i, p.to_string());
    }
    let mut m2: HashMap<usize, String> = HashMap::new();
    for (i, p) in [(3, "popA"), (2, "popB"), (1, "popA"), (0, "popB")] {
        m2.insert(i, p.to_string());
    }
    assert_eq!(n_haps_per_pop(&m1), n_haps_per_pop(&m2));
    let ix1 = index_populations(&m1).unwrap();
    let ix2 = index_populations(&m2).unwrap();
    assert_eq!(ix1.labels, ix2.labels);
    assert_eq!(ix1.counts, ix2.counts);
}

#[test]
fn empty_sample_map_is_config_error() {
    let m: HashMap<usize, String> = HashMap::new();
    assert!(matches!(
        index_populations(&m),
        Err(BsfsError::ConfigError)
    ));
    assert!(matches!(
        bsfs_matrix(block_calls(), m),
        Err(BsfsError::ConfigError)
    ));
}

#[test]
fn matrix_of_block_scenario() {
    let mat = bsfs_matrix(block_calls(), sample_map_two_pops()).unwrap();
    assert_eq!(mat.dims, vec![5, 5]);
    assert_eq!(mat.cells.len(), 25);
    // row-major, last axis fastest: (i, j) lives at 5 * i + j
    for i in 0..5usize {
        for j in 0..5usize {
            let expected: usize =
                if (i, j) == (2, 2) || (i, j) == (4, 4) || (i, j) == (1, 0) { 1 } else { 0 };
            assert_eq!(mat.get(&vec![i, j]), expected);
            assert_eq!(mat.cells[5 * i + j], expected);
        }
    }
    let total: usize = mat.cells.iter().sum();
    assert_eq!(total, 3);
    assert_eq!(mat.total(), 3);
}

#[test]
fn matrix_total_equals_block_length() {
    // many sites landing on the same cell: counts accumulate
    let calls: Vec<Vec<Vec<u32>>> = vec![
        vec![vec![1, 0], vec![0, 0], vec![0, 0], vec![0, 0]],
        vec![vec![1, 0], vec![0, 0], vec![0, 0], vec![0, 0]],
        vec![vec![1, 0], vec![0, 0], vec![0, 0], vec![0, 0]],
        vec![vec![0, 0], vec![0, 0], vec![0, 0], vec![0, 0]],
    ];
    let mat = bsfs_matrix(calls, sample_map_two_pops()).unwrap();
    assert_eq!(mat.get(&vec![1, 0]), 3);
    assert_eq!(mat.get(&vec![0, 0]), 1);
    assert_eq!(mat.total(), 4);
}

#[test]
fn matrix_mode_matches_accumulated_indices_mode() {
    let m = sample_map_two_pops();
    let indices = bsfs_indices(block_calls(), m.clone());
    let ix = index_populations(&m).unwrap();
    let dims: Vec<usize> = ix.counts.iter().map(|c| c + 1).collect();
    let folded = accumulate_entries(&indices, &dims).unwrap();
    let direct = bsfs_matrix(block_calls(), m).unwrap();
    assert_eq!(folded.dims, direct.dims);
    assert_eq!(folded.cells, direct.cells);
}

#[test]
fn zero_assigned_population_contributes_zero_axis() {
    // a population named in the order but absent from the map: its
    // coordinate is always zero and its matrix axis has a single point
    let m = sample_map_two_pops();
    let order: Vec<String> =
        vec!["popA".to_string(), "popB".to_string(), "popC".to_string()];
    let flat: Vec<u32> = vec![1, 1, 1, 1, 1, 1, 1, 1];
    let entry = classify_with(&flat, &m, &order);
    assert_eq!(entry, vec![4, 4, 0]);
    let dims: Vec<usize> = vec![5, 5, 1];
    let mat = accumulate_entries(&vec![entry], &dims).unwrap();
    assert_eq!(mat.cells.len(), 25);
    assert_eq!(mat.get(&vec![4, 4, 0]), 1);
    assert_eq!(mat.total(), 1);
}

#[test]
fn misshapen_entry_is_shape_error() {
    let dims: Vec<usize> = vec![5, 5];
    // wrong arity
    let r = accumulate_entries(&vec![vec![1, 1], vec![1, 2, 3]], &dims);
    assert_eq!(r.err(), Some(BsfsError::ShapeError(1)));
    // out of range for its axis
    let r2 = accumulate_entries(&vec![vec![5, 0]], &dims);
    assert_eq!(r2.err(), Some(BsfsError::ShapeError(0)));
}

#[test]
fn oversized_matrix_is_overflow_error() {
    let dims: Vec<usize> = vec![usize::MAX, usize::MAX];
    let r = accumulate_entries(&Vec::new(), &dims);
    assert_eq!(r.err(), Some(BsfsError::OverflowError));
}

#[test]
fn empty_block_gives_all_zero_matrix() {
    let mat = bsfs_matrix(Vec::new(), sample_map_two_pops()).unwrap();
    assert_eq!(mat.dims, vec![5, 5]);
    assert!(mat.cells.iter().all(|c| *c == 0));
    assert_eq!(mat.total(), 0);
}

#[test]
fn misshapen_site_in_block_is_shape_error() {
    // the second site flattens to 6 calls against 8 mapped haplotypes
    let calls: Vec<Vec<Vec<u32>>> = vec![
        vec![vec![0, 1], vec![1, 0], vec![0, 0], vec![1, 1]],
        vec![vec![1, 1], vec![1, 1], vec![1, 1]],
        vec![vec![0, 0], vec![0, 1], vec![0, 0], vec![0, 0]],
    ];
    let m = sample_map_two_pops();
    assert_eq!(
        bsfs_indices_checked(calls.clone(), m.clone()).err(),
        Some(BsfsError::ShapeError(1))
    );
    assert_eq!(
        bsfs_indices_strict(calls.clone(), m.clone()).err(),
        Some(BsfsError::ShapeError(1))
    );
    assert_eq!(bsfs_matrix(calls, m).err(), Some(BsfsError::ShapeError(1)));
}

#[test]
fn checked_indices_match_plain_indices_on_conforming_block() {
    let m = sample_map_two_pops();
    let checked = bsfs_indices_checked(block_calls(), m.clone()).unwrap();
    assert_eq!(checked, bsfs_indices(block_calls(), m));
}

#[test]
fn strict_indices_accept_fully_mapped_conforming_block() {
    let m = sample_map_two_pops();
    let strict = bsfs_indices_strict(block_calls(), m.clone()).unwrap();
    assert_eq!(strict, bsfs_indices(block_calls(), m));
}

#[test]
fn strict_indices_report_first_unmapped_position() {
    // three mapped haplotypes at positions 0, 1 and 3: position 2 has no
    // entry, so a conforming block of three calls fails strictly but is
    // classified silently otherwise
    let mut m: HashMap<usize, String> = HashMap::new();
    m.insert(0, "popA".to_string());
    m.insert(1, "popA".to_string());
    m.insert(3, "popA".to_string());
    let calls: Vec<Vec<Vec<u32>>> = vec![vec![vec![1, 0, 1]]];
    assert_eq!(
        bsfs_indices_strict(calls.clone(), m.clone()).err(),
        Some(BsfsError::IndexError(2))
    );
    assert_eq!(bsfs_indices(calls, m), vec![vec![1]]);
}

#[test]
fn shape_error_takes_precedence_over_unmapped_positions() {
    let mut m: HashMap<usize, String> = HashMap::new();
    m.insert(0, "popA".to_string());
    m.insert(2, "popA".to_string());
    let calls: Vec<Vec<Vec<u32>>> = vec![vec![vec![1, 1, 1]]];
    // the site flattens to 3 calls against 2 mapped haplotypes
    assert_eq!(
        bsfs_indices_strict(calls, m).err(),
        Some(BsfsError::ShapeError(0))
    );
}
