use probe_agent::outcome::{rank_fold, rank_update};
use probe_agent::BestResult;

fn outcome(peaks: i32, alts: i64, placed: i64) -> BestResult {
    BestResult { visited_peaks: peaks, visited_altitudes: alts, placed_altitudes: placed }
}

#[test]
fn more_peaks_beat_everything_else() {
    let best = outcome(2, 100, 1);
    let cand = outcome(3, -50, 99);
    assert_eq!(rank_update(best, cand), cand);
    assert_eq!(rank_update(cand, best), cand);
}

#[test]
fn altitude_sum_breaks_peak_ties() {
    let best = outcome(2, 10, 1);
    let cand = outcome(2, 11, 99);
    assert_eq!(rank_update(best, cand), cand);
    assert_eq!(rank_update(cand, best), cand);
}

#[test]
fn lower_placed_altitude_breaks_full_ties() {
    let best = outcome(2, 10, 5);
    let cand = outcome(2, 10, 4);
    assert_eq!(rank_update(best, cand), cand);
    assert_eq!(rank_update(cand, best), cand);
}

#[test]
fn worse_candidates_leave_the_incumbent() {
    let best = outcome(3, 10, 5);
    assert_eq!(rank_update(best, outcome(2, 99, 0)), best);
    assert_eq!(rank_update(best, outcome(3, 9, 0)), best);
    assert_eq!(rank_update(best, outcome(3, 10, 6)), best);
}

#[test]
fn fold_result_is_order_independent() {
    let a = outcome(1, 5, 5);
    let b = outcome(3, 2, 7);
    let c = outcome(3, 2, 4);
    let init = outcome(0, 0, i64::MAX);
    let forward = rank_fold(init, &vec![a, b, c]);
    let backward = rank_fold(init, &vec![c, b, a]);
    let shuffled = rank_fold(init, &vec![b, c, a]);
    assert_eq!(forward, outcome(3, 2, 4));
    assert_eq!(backward, forward);
    assert_eq!(shuffled, forward);
}

#[test]
fn fold_over_nothing_keeps_the_start() {
    let init = outcome(0, 0, i64::MAX);
    assert_eq!(rank_fold(init, &vec![]), init);
}
