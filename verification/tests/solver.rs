use probe_agent::Agent;

#[test]
fn single_cell_single_probe() {
    let agent = Agent::new(vec![vec![5]], vec![1]);
    let r = agent.dfs();
    assert_eq!(r.visited_peaks, 1);
    assert_eq!(r.visited_altitudes, 5);
    assert_eq!(r.placed_altitudes, 5);
}

#[test]
fn two_cells_probe_prefers_low_ground() {
    // both cells see each other, so the probe lands on the lower one
    let agent = Agent::new(vec![vec![1, 100]], vec![10]);
    let r = agent.dfs();
    assert_eq!(r.visited_peaks, 2);
    assert_eq!(r.visited_altitudes, 101);
    assert_eq!(r.placed_altitudes, 1);
}

#[test]
fn extra_probes_never_exceed_grid_total() {
    // two probes on two cells: every cell observed exactly once
    let agent = Agent::new(vec![vec![5, 7]], vec![3, 3]);
    let r = agent.dfs();
    assert_eq!(r.visited_peaks, 2);
    assert_eq!(r.visited_altitudes, 12);
    assert_eq!(r.placed_altitudes, 12);
}

#[test]
fn more_probes_than_cells_yields_no_placement() {
    let agent = Agent::new(vec![vec![5]], vec![1, 1]);
    let r = agent.dfs();
    assert_eq!(r.visited_peaks, 0);
    assert_eq!(r.visited_altitudes, 0);
    assert_eq!(r.placed_altitudes, i64::MAX);
}

#[test]
fn occluded_valley_needs_the_summit() {
    // from the left edge the summit hides the far cell; from the summit all
    // three cells are observed
    let agent = Agent::new(vec![vec![0, 100, 1]], vec![10]);
    let r = agent.dfs();
    assert_eq!(r.visited_peaks, 3);
    assert_eq!(r.visited_altitudes, 101);
    assert_eq!(r.placed_altitudes, 100);
}

#[test]
fn two_probes_split_an_occluded_ridge() {
    // one probe cannot see past the twin summits from the flats
    let agent = Agent::new(vec![vec![0, 9, 9, 0]], vec![5, 5]);
    let r = agent.dfs();
    assert_eq!(r.visited_peaks, 4);
    assert_eq!(r.visited_altitudes, 18);
}

#[test]
fn square_grid_one_probe_sees_all_neighbours() {
    let agent = Agent::new(vec![vec![1, 2], vec![3, 4]], vec![2]);
    let r = agent.dfs();
    assert_eq!(r.visited_peaks, 4);
    assert_eq!(r.visited_altitudes, 10);
    assert_eq!(r.placed_altitudes, 1);
}

#[test]
fn probes_are_sorted_descending() {
    let agent = Agent::new(vec![vec![1, 2], vec![3, 4]], vec![1, 3, 2]);
    assert_eq!(agent.probes, vec![3, 2, 1]);
}

#[test]
fn negative_altitudes_are_summed_exactly() {
    let agent = Agent::new(vec![vec![-5, -7]], vec![4]);
    let r = agent.dfs();
    assert_eq!(r.visited_peaks, 2);
    assert_eq!(r.visited_altitudes, -12);
    assert_eq!(r.placed_altitudes, -7);
}

#[test]
fn can_prune_compares_the_reachable_total() {
    let agent = Agent::new(vec![vec![5]], vec![1]);
    // one probe whose best coverage is the single cell
    assert_eq!(agent.probes_max_vis, vec![1]);
    assert!(agent.can_prune(0b1, 3, 1));
    assert!(!agent.can_prune(0b1, 2, 1));
    // with no probes left only the current count remains
    assert!(agent.can_prune(0b0, 2, 1));
}

#[test]
fn translate_probes_marks_one_bit_per_probe() {
    let agent = Agent::new(vec![vec![1, 2], vec![3, 4]], vec![2, 1]);
    assert_eq!(agent.translate_probes_to_u8(), 0b11);
    let mut remaining: u8 = 0b11;
    agent.remove_probe(&mut remaining, 0);
    assert_eq!(remaining, 0b10);
}
