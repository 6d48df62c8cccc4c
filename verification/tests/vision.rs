use probe_agent::bits::popcount64;
use probe_agent::Agent;

#[test]
fn origin_is_always_visible() {
    let agent = Agent::new(vec![vec![5]], vec![1]);
    let mut visited: u64 = 0;
    let score = agent.calculate_vision_score(&0, &0, &mut visited, 1);
    assert_eq!(visited, 0b1);
    assert_eq!(score, 5);
}

#[test]
fn summit_occludes_the_far_cell() {
    let agent = Agent::new(vec![vec![0, 100, 1]], vec![10]);
    let mut visited: u64 = 0;
    let score = agent.calculate_vision_score(&0, &0, &mut visited, 10);
    assert_eq!(visited, 0b011);
    assert_eq!(score, 100);
}

#[test]
fn equal_slopes_count_as_visible() {
    // slopes 5/1 and 10/2 tie, so the far cell is still observed
    let agent = Agent::new(vec![vec![0, 5, 10]], vec![10]);
    let mut visited: u64 = 0;
    let score = agent.calculate_vision_score(&0, &0, &mut visited, 10);
    assert_eq!(visited, 0b111);
    assert_eq!(score, 15);
}

#[test]
fn range_cuts_the_ray_off() {
    let agent = Agent::new(vec![vec![1, 1, 1]], vec![1]);
    let mut visited: u64 = 0;
    let score = agent.calculate_vision_score(&0, &0, &mut visited, 1);
    assert_eq!(visited, 0b011);
    assert_eq!(score, 2);
}

#[test]
fn diagonal_neighbours_are_within_range_two() {
    let agent = Agent::new(vec![vec![1, 2], vec![3, 4]], vec![2]);
    let mut visited: u64 = 0;
    let score = agent.calculate_vision_score(&0, &0, &mut visited, 2);
    assert_eq!(visited, 0b1111);
    assert_eq!(score, 10);
}

#[test]
fn already_visited_cells_add_nothing() {
    let agent = Agent::new(vec![vec![1, 2], vec![3, 4]], vec![2]);
    let mut visited: u64 = 0b0001;
    let score = agent.calculate_vision_score(&0, &0, &mut visited, 2);
    assert_eq!(visited, 0b1111);
    assert_eq!(score, 9);
}

#[test]
fn rebuilding_the_table_gives_identical_masks() {
    let board = vec![vec![3, 1, 4], vec![1, 5, 9]];
    let a1 = Agent::new(board.clone(), vec![2, 7]);
    let a2 = Agent::new(board, vec![7, 2]);
    assert_eq!(a1.probes, a2.probes);
    assert_eq!(a1.probe_visions, a2.probe_visions);
    assert_eq!(a1.probes_max_vis, a2.probes_max_vis);
}

#[test]
fn table_lookup_matches_the_sweep() {
    let agent = Agent::new(vec![vec![0, 100, 1]], vec![10]);
    let mut visited: u64 = 0;
    agent.calculate_vision_score(&1, &0, &mut visited, 10);
    assert_eq!(agent.get_visible_peaks(0, 1, 0), visited);
}

#[test]
fn coordinates_round_trip_through_indices() {
    let agent = Agent::new(vec![vec![1, 2], vec![3, 4]], vec![1]);
    assert_eq!(agent.coord_to_index(1, 1), 3);
    assert_eq!(agent.index_to_coord(3), (1, 1));
    assert_eq!(agent.coord_to_index(1, 0), 1);
    assert_eq!(agent.index_to_coord(2), (0, 1));
    assert!(agent.coord_is_viable(1, 1));
    assert!(!agent.coord_is_viable(2, 0));
    assert!(!agent.coord_is_viable(-1, 0));
}

#[test]
fn occupancy_bits_follow_the_cell_index() {
    let agent = Agent::new(vec![vec![1, 2], vec![3, 4]], vec![1]);
    let mut occupied: u64 = 0;
    agent.mark_occupied(0, 1, &mut occupied);
    assert_eq!(occupied, 0b0100);
    assert!(agent.is_occupied(0, 1, &occupied));
    assert!(!agent.is_occupied(1, 1, &occupied));
}

#[test]
fn visited_altitudes_sum_the_marked_cells() {
    let agent = Agent::new(vec![vec![1, 2], vec![3, 4]], vec![1]);
    assert_eq!(agent.get_visited_altitudes(0b1010), 6);
    assert_eq!(agent.get_visited_altitudes(0), 0);
}

#[test]
fn popcount_counts_set_bits() {
    assert_eq!(popcount64(0), 0);
    assert_eq!(popcount64(0b1011), 3);
    assert_eq!(popcount64(u64::MAX), 64);
    assert_eq!(popcount64(1 << 63), 1);
}
