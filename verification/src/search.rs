//! The exact branch-and-bound depth-first search over probe placements.
//!
//! The specification `opt_from` is the plain recursive optimum — every way of
//! placing the remaining probes on free cells, folded with the ranking order
//! and with no pruning.  `dfs` is proved to return exactly that optimum, so
//! the admissible pruning bound is verified not to change the result.

use vstd::prelude::*;

use crate::agent::{
    lemma_bit_test8, lemma_cell_index_bounds, lemma_idx_coords, lemma_row_step,
    lemma_seg_mask8_bits, lemma_seg_mask8_split, seg_mask8, sel_sum, suffix_sum, Agent,
};
use crate::bits::{
    bit64, bits_below, lemma_bits_below_or, lemma_bits_below_single, lemma_bits_below_zero,
    lemma_popn_le, lemma_popn_or_le, lemma_popn_set_bit, pop64, popcount64,
};
use crate::outcome::{
    lemma_join_absorb, lemma_join_absorb_mid, lemma_join_cases, lemma_join_regroup,
    lemma_join_rotate, rank_join, rank_le, rank_update, sentinel, BestResult,
};

verus! {

/// One branch of the search: which cells hold probes, which cells are
/// observed, which probes are still to be placed, and the next probe index.
pub struct State {
    pub occupied_positions: u64,
    pub visited_positions: u64,
    pub remaining_probes: u8,
    pub next_index: usize,
}

impl Agent {
    /// The visibility mask of probe `k` placed on the cell with index `c`.
    pub open spec fn place_mask(self, k: int, c: int) -> u64 {
        self.vision_mask(c % self.grid_w(), c / self.grid_w(), self.probes@[k] as int)
    }

    /// The three ranked scalars of a finished branch.
    pub open spec fn outcome_of(self, v: u64, o: u64) -> BestResult {
        BestResult {
            visited_peaks: pop64(v) as i32,
            visited_altitudes: self.alt_sum(v) as i64,
            placed_altitudes: self.alt_sum(o) as i64,
        }
    }

    /// The exact optimum over all completions of a branch with occupied set
    /// `o`, observed set `v`, and probes `k..` still to place.  No pruning.
    pub open spec fn opt_from(self, o: u64, v: u64, k: int) -> BestResult
        decreases self.probes@.len() - k + 1, 0int,
    {
        if k >= self.probes@.len() {
            self.outcome_of(v, o)
        } else {
            self.opt_cells(o, v, k, 0)
        }
    }

    /// The optimum over placements of probe `k` on a free cell with index at
    /// least `c`, followed by the remaining probes anywhere.
    pub open spec fn opt_cells(self, o: u64, v: u64, k: int, c: int) -> BestResult
        decreases self.probes@.len() - k, self.cells() - c,
    {
        if c < 0 || c >= self.cells() || k >= self.probes@.len() {
            sentinel()
        } else if bit64(o, c) {
            self.opt_cells(o, v, k, c + 1)
        } else {
            rank_join(
                self.opt_from(o | (1u64 << (c as u64)), v | self.place_mask(k, c), k + 1),
                self.opt_cells(o, v, k, c + 1),
            )
        }
    }

    /// A well-formed branch: the occupied count matches the probe cursor, all
    /// mask bits address grid cells, and the remaining set is the suffix.
    pub open spec fn st_wf(self, s: State) -> bool {
        &&& pop64(s.occupied_positions) == s.next_index
        &&& s.next_index <= self.probes@.len()
        &&& bits_below(s.occupied_positions, self.cells())
        &&& bits_below(s.visited_positions, self.cells())
        &&& s.remaining_probes == seg_mask8(s.next_index as int, self.probes@.len() as int)
    }

    pub open spec fn stack_wf(self, ss: Seq<State>) -> bool {
        forall|i: int| 0 <= i < ss.len() ==> self.st_wf(#[trigger] ss[i])
    }

    /// The best outcome reachable from any branch still on the stack.
    pub open spec fn stack_opt(self, ss: Seq<State>) -> BestResult
        decreases ss.len(),
    {
        if ss.len() == 0 {
            sentinel()
        } else {
            rank_join(
                self.stack_opt(ss.drop_last()),
                self.opt_from(
                    ss.last().occupied_positions,
                    ss.last().visited_positions,
                    ss.last().next_index as int,
                ),
            )
        }
    }

    /// Upper bound on the subtree size of a branch, for termination.
    pub open spec fn pow_cells(self, m: int) -> nat
        decreases m,
    {
        if m <= 0 {
            1
        } else {
            ((self.cells() + 1) as nat) * self.pow_cells(m - 1)
        }
    }

    pub open spec fn stack_measure(self, ss: Seq<State>) -> nat
        decreases ss.len(),
    {
        if ss.len() == 0 {
            0
        } else {
            self.stack_measure(ss.drop_last()) + self.pow_cells(
                self.probes@.len() - ss.last().next_index,
            )
        }
    }

    pub proof fn lemma_pow_cells_pos(self, m: int)
        requires
            self.cells() >= 1,
        ensures
            self.pow_cells(m) >= 1,
        decreases m,
    {
        if m > 0 {
            self.lemma_pow_cells_pos(m - 1);
            lemma_mul_ge(self.cells() + 1, self.pow_cells(m - 1) as int);
        }
    }

    pub proof fn lemma_stack_push(self, ss: Seq<State>, s: State)
        ensures
            self.stack_opt(ss.push(s)) == rank_join(
                self.stack_opt(ss),
                self.opt_from(s.occupied_positions, s.visited_positions, s.next_index as int),
            ),
            self.stack_measure(ss.push(s)) == self.stack_measure(ss) + self.pow_cells(
                self.probes@.len() - s.next_index,
            ),
    {
        assert(ss.push(s).drop_last() =~= ss);
        assert(ss.push(s).last() == s);
    }

    /// Every optimum value dominates the sentinel.
    pub proof fn lemma_opt_dominates(self, o: u64, v: u64, k: int)
        ensures
            rank_le(sentinel(), self.opt_from(o, v, k)),
        decreases self.probes@.len() - k + 1, 0int,
    {
        if k >= self.probes@.len() {
            let out = self.outcome_of(v, o);
            crate::bits::lemma_popn_le(v, 64);
            if pop64(v) == 0 {
                crate::bits::lemma_pop64_zero(v);
                self.lemma_alt_sum_zero(64);
            }
        } else {
            self.lemma_opt_cells_dominates(o, v, k, 0);
        }
    }

    pub proof fn lemma_opt_cells_dominates(self, o: u64, v: u64, k: int, c: int)
        ensures
            rank_le(sentinel(), self.opt_cells(o, v, k, c)),
        decreases self.probes@.len() - k, self.cells() - c,
    {
        if c < 0 || c >= self.cells() || k >= self.probes@.len() {
        } else if bit64(o, c) {
            self.lemma_opt_cells_dominates(o, v, k, c + 1);
        } else {
            self.lemma_opt_cells_dominates(o, v, k, c + 1);
            self.lemma_opt_dominates(
                o | (1u64 << (c as u64)),
                v | self.place_mask(k, c),
                k + 1,
            );
            lemma_join_cases(
                self.opt_from(o | (1u64 << (c as u64)), v | self.place_mask(k, c), k + 1),
                self.opt_cells(o, v, k, c + 1),
            );
        }
    }

    /// The altitude sum of the empty mask is zero.
    pub proof fn lemma_alt_sum_zero(self, n: int)
        ensures
            self.alt_sum_n(0u64, n) == 0,
        decreases n,
    {
        if n > 0 {
            self.lemma_alt_sum_zero(n - 1);
            let nu = (n - 1) as u64;
            assert(((0u64 >> nu) & 1) != 1) by (bit_vector);
        }
    }

    /// The admissible bound: no completion of a branch can observe more cells
    /// than it already does plus the best possible coverage of each probe
    /// still to be placed.
    pub proof fn lemma_opt_peaks_bound(self, o: u64, v: u64, k: int)
        requires
            self.wf(),
            0 <= k,
        ensures
            self.opt_from(o, v, k).visited_peaks <= pop64(v) + suffix_sum(
                self.probes_max_vis@,
                k,
                self.probes@.len() as int,
            ),
        decreases self.probes@.len() - k + 1, 0int,
    {
        let n = self.probes@.len() as int;
        if k >= n {
            crate::bits::lemma_popn_le(v, 64);
        } else {
            self.lemma_opt_cells_peaks_bound(o, v, k, 0);
        }
    }

    pub proof fn lemma_opt_cells_peaks_bound(self, o: u64, v: u64, k: int, c: int)
        requires
            self.wf(),
            0 <= k < self.probes@.len(),
        ensures
            self.opt_cells(o, v, k, c).visited_peaks <= pop64(v) + suffix_sum(
                self.probes_max_vis@,
                k,
                self.probes@.len() as int,
            ),
        decreases self.probes@.len() - k, self.cells() - c,
    {
        let n = self.probes@.len() as int;
        let bound = pop64(v) + suffix_sum(self.probes_max_vis@, k, n);
        lemma_suffix_sum_nonneg(self.probes_max_vis@, k, n);
        if c < 0 || c >= self.cells() || k >= n {
        } else if bit64(o, c) {
            self.lemma_opt_cells_peaks_bound(o, v, k, c + 1);
        } else {
            self.lemma_opt_cells_peaks_bound(o, v, k, c + 1);
            let m = self.place_mask(k, c);
            let v2 = v | m;
            let cand = self.opt_from(o | (1u64 << (c as u64)), v2, k + 1);
            self.lemma_opt_peaks_bound(o | (1u64 << (c as u64)), v2, k + 1);
            lemma_popn_or_le(v, m, 64);
            assert(m == self.probe_visions@[k]@[c]);
            assert(pop64(m) <= self.probes_max_vis@[k]);
            lemma_suffix_sum_head(self.probes_max_vis@, k, n);
            lemma_join_cases(cand, self.opt_cells(o, v, k, c + 1));
        }
    }
}

impl Agent {
    /// Everything still on the stack dominates the sentinel.
    pub proof fn lemma_stack_opt_dominates(self, ss: Seq<State>)
        ensures
            rank_le(sentinel(), self.stack_opt(ss)),
        decreases ss.len(),
    {
        if ss.len() > 0 {
            self.lemma_stack_opt_dominates(ss.drop_last());
            self.lemma_opt_dominates(
                ss.last().occupied_positions,
                ss.last().visited_positions,
                ss.last().next_index as int,
            );
            lemma_join_cases(
                self.stack_opt(ss.drop_last()),
                self.opt_from(
                    ss.last().occupied_positions,
                    ss.last().visited_positions,
                    ss.last().next_index as int,
                ),
            );
        }
    }

    /// Exact branch-and-bound search over all placements of the probes on
    /// distinct cells.  Returns precisely the pruning-free recursive optimum
    /// `opt_from(0, 0, 0)`: the pruning bound is admissible and never changes
    /// the result.  When no full placement exists (more probes than cells)
    /// the sentinel itself is returned.
    pub fn dfs(&self) -> (r: BestResult)
        requires
            self.wf(),
        ensures
            r == self.opt_from(0, 0, 0),
            rank_le(sentinel(), r),
    {
        let mut best = BestResult {
            visited_peaks: 0,
            visited_altitudes: 0,
            placed_altitudes: i64::MAX,
        };
        let initial_state = State {
            occupied_positions: 0,
            visited_positions: 0,
            remaining_probes: self.translate_probes_to_u8(),
            next_index: 0,
        };
        let mut stack: Vec<State> = Vec::new();
        let ghost target = self.opt_from(0, 0, 0);
        let ghost n = self.probes@.len() as int;
        proof {
            lemma_cell_index_bounds(0, 0, self.grid_w(), self.grid_h());
            crate::bits::lemma_popn_zero_val(64);
            lemma_bits_below_zero(self.cells());
            self.lemma_opt_dominates(0, 0, 0);
            assert(best == sentinel());
        }
        stack.push(initial_state);
        proof {
            assert(stack@.drop_last() =~= Seq::<State>::empty());
            assert(stack@.last() == initial_state);
            assert(self.stack_opt(stack@.drop_last()) == sentinel());
            assert(self.stack_opt(stack@) == rank_join(sentinel(), target));
            lemma_join_absorb(target, sentinel());
            assert(self.st_wf(initial_state));
            assert(self.stack_wf(stack@)) by {
                assert(forall|i: int| 0 <= i < stack@.len() ==> #[trigger] stack@[i]
                    == initial_state);
            }
        }
        loop
            invariant_except_break
                self.wf(),
                n == self.probes@.len(),
                self.stack_wf(stack@),
                target == self.opt_from(0, 0, 0),
                rank_le(sentinel(), best),
                rank_join(best, self.stack_opt(stack@)) == target,
            ensures
                rank_le(sentinel(), best),
                rank_join(best, self.stack_opt(stack@)) == target,
                stack@.len() == 0,
            decreases self.stack_measure(stack@),
        {
            if stack.len() == 0 {
                break;
            }
            let ghost pre_stack = stack@;
            let ghost m0 = self.stack_measure(pre_stack);
            let popped_state = stack.pop().unwrap();
            proof {
                assert(stack@ =~= pre_stack.drop_last());
                assert(self.st_wf(pre_stack[pre_stack.len() - 1]));
                assert(pre_stack.last() == popped_state);
                lemma_cell_index_bounds(0, 0, self.grid_w(), self.grid_h());
            }
            let ghost o = popped_state.occupied_positions;
            let ghost v = popped_state.visited_positions;
            let ghost k = popped_state.next_index as int;
            let ghost popped_opt = self.opt_from(o, v, k);
            let ghost s1 = stack@;
            let ghost base = self.stack_measure(s1);
            proof {
                assert(self.stack_opt(pre_stack) == rank_join(self.stack_opt(s1), popped_opt));
                assert(m0 == base + self.pow_cells(n - k));
                self.lemma_pow_cells_pos(n - k);
            }
            if popped_state.remaining_probes == 0 {
                // terminal branch: fold the finished outcome into the best
                proof {
                    if k < n {
                        lemma_seg_mask8_bits(k, n, k);
                        let ku = k as u8;
                        assert(((0u8 >> ku) & 1) != 1) by (bit_vector);
                    }
                    assert(k >= n);
                    assert(popped_opt == self.outcome_of(v, o));
                }
                let popped_visited_peaks = popcount64(popped_state.visited_positions) as i32;
                let popped_visited_altitudes = self.get_visited_altitudes(
                    popped_state.visited_positions,
                );
                let popped_placed_probes_altitudes = self.get_visited_altitudes(
                    popped_state.occupied_positions,
                );
                let candidate = BestResult {
                    visited_peaks: popped_visited_peaks,
                    visited_altitudes: popped_visited_altitudes,
                    placed_altitudes: popped_placed_probes_altitudes,
                };
                let ghost best_old = best;
                best = rank_update(best, candidate);
                proof {
                    assert(candidate == popped_opt);
                    lemma_join_rotate(best_old, self.stack_opt(s1), candidate);
                    self.lemma_opt_dominates(o, v, k);
                    lemma_join_cases(best_old, candidate);
                }
            } else {
                let probe_index = popped_state.next_index;
                proof {
                    assert(k < n);
                    assert(popped_opt == self.opt_cells(o, v, k, 0));
                }
                if popped_state.remaining_probes & (1 << probe_index) == 0 {
                    proof {
                        lemma_bit_test8(popped_state.remaining_probes, k);
                        lemma_seg_mask8_bits(k, n, k);
                        assert(false);
                    }
                    continue;
                }
                let mut y_coord: i32 = 0;
                while y_coord < self.board_height
                    invariant
                        self.wf(),
                        n == self.probes@.len(),
                        self.stack_wf(stack@),
                        target == self.opt_from(0, 0, 0),
                        rank_le(sentinel(), best),
                        0 <= y_coord <= self.grid_h(),
                        probe_index == k,
                        0 <= k < n,
                        pop64(o) == k,
                        bits_below(o, self.cells()),
                        bits_below(v, self.cells()),
                        o == popped_state.occupied_positions,
                        v == popped_state.visited_positions,
                        popped_state.next_index == k,
                        popped_state.remaining_probes == seg_mask8(k, n),
                        rank_join(
                            best,
                            rank_join(
                                self.stack_opt(stack@),
                                self.opt_cells(o, v, k, y_coord * self.grid_w()),
                            ),
                        ) == target,
                        self.stack_measure(stack@) <= base + (y_coord * self.grid_w())
                            * self.pow_cells(n - k - 1),
                        m0 == base + self.pow_cells(n - k),
                    decreases self.grid_h() - y_coord,
                {
                    let mut x_coord: i32 = 0;
                    while x_coord < self.board_width
                        invariant
                            self.wf(),
                            n == self.probes@.len(),
                            self.stack_wf(stack@),
                            target == self.opt_from(0, 0, 0),
                            rank_le(sentinel(), best),
                            0 <= y_coord < self.grid_h(),
                            0 <= x_coord <= self.grid_w(),
                            probe_index == k,
                            0 <= k < n,
                            pop64(o) == k,
                            bits_below(o, self.cells()),
                            bits_below(v, self.cells()),
                            o == popped_state.occupied_positions,
                            v == popped_state.visited_positions,
                            popped_state.next_index == k,
                            popped_state.remaining_probes == seg_mask8(k, n),
                            rank_join(
                                best,
                                rank_join(
                                    self.stack_opt(stack@),
                                    self.opt_cells(o, v, k, y_coord * self.grid_w() + x_coord),
                                ),
                            ) == target,
                            self.stack_measure(stack@) <= base + (y_coord * self.grid_w()
                                + x_coord) * self.pow_cells(n - k - 1),
                            m0 == base + self.pow_cells(n - k),
                        decreases self.grid_w() - x_coord,
                    {
                        let ghost idx = y_coord * self.grid_w() + x_coord;
                        proof {
                            lemma_cell_index_bounds(
                                x_coord as int,
                                y_coord as int,
                                self.grid_w(),
                                self.grid_h(),
                            );
                            lemma_idx_coords(
                                x_coord as int,
                                y_coord as int,
                                self.grid_w(),
                                self.grid_h(),
                            );
                        }
                        if self.is_occupied(x_coord, y_coord, &popped_state.occupied_positions) {
                            proof {
                                assert(self.opt_cells(o, v, k, idx) == self.opt_cells(
                                    o,
                                    v,
                                    k,
                                    idx + 1,
                                ));
                            }
                        } else {
                            let mut new_occupied = popped_state.occupied_positions;
                            let mut new_visited = popped_state.visited_positions;
                            let mut new_remaining_probes = popped_state.remaining_probes;
                            self.mark_occupied(x_coord, y_coord, &mut new_occupied);
                            new_visited |= self.get_visible_peaks(probe_index, x_coord, y_coord);
                            self.remove_probe(&mut new_remaining_probes, probe_index);
                            let ghost cand = self.opt_from(new_occupied, new_visited, k + 1);
                            let ghost rest = self.opt_cells(o, v, k, idx + 1);
                            proof {
                                lemma_seg_mask8_split(k, n);
                                assert(new_remaining_probes == seg_mask8(k + 1, n));
                                assert(new_visited == v | self.place_mask(k, idx));
                                assert(self.opt_cells(o, v, k, idx) == rank_join(cand, rest));
                                lemma_popn_set_bit(o, idx, 64);
                                lemma_bits_below_single(idx, self.cells());
                                lemma_bits_below_or(
                                    o,
                                    1u64 << (idx as u64),
                                    self.cells(),
                                );
                                self.lemma_vision_mask_bits_below(
                                    x_coord as int,
                                    y_coord as int,
                                    self.probes@[k] as int,
                                );
                                lemma_bits_below_or(v, self.place_mask(k, idx), self.cells());
                            }
                            let current_peaks = popcount64(new_visited) as i32;
                            if self.can_prune(new_remaining_probes, best.visited_peaks, current_peaks)
                             {
                                proof {
                                    lemma_sel_seg(self.probes_max_vis@, k + 1, n, n);
                                    if n <= k + 1 {
                                        assert(suffix_sum(self.probes_max_vis@, k + 1, n) == 0);
                                    }
                                    self.lemma_opt_peaks_bound(new_occupied, new_visited, k + 1);
                                    assert(cand.visited_peaks < best.visited_peaks);
                                    assert(rank_le(cand, best));
                                    lemma_join_absorb_mid(best, self.stack_opt(stack@), cand, rest);
                                }
                            } else {
                                let ghost s_before = stack@;
                                stack.push(
                                    State {
                                        occupied_positions: new_occupied,
                                        visited_positions: new_visited,
                                        remaining_probes: new_remaining_probes,
                                        next_index: popped_state.next_index + 1,
                                    },
                                );
                                proof {
                                    let new_state = stack@.last();
                                    assert(self.st_wf(new_state));
                                    assert(self.stack_wf(stack@)) by {
                                        assert forall|i: int| 0 <= i < stack@.len() implies self.st_wf(
                                            #[trigger] stack@[i],
                                        ) by {
                                            if i < s_before.len() {
                                                assert(stack@[i] == s_before[i]);
                                            }
                                        }
                                    }
                                    self.lemma_stack_push(s_before, new_state);
                                    assert(self.stack_opt(stack@) == rank_join(
                                        self.stack_opt(s_before),
                                        cand,
                                    ));
                                    lemma_join_regroup(best, self.stack_opt(s_before), cand, rest);
                                    lemma_mul_distrib(idx, self.pow_cells(n - k - 1) as int);
                                }
                            }
                        }
                        proof {
                            lemma_mul_distrib(idx, self.pow_cells(n - k - 1) as int);
                        }
                        x_coord = x_coord + 1;
                    }
                    proof {
                        lemma_row_step(y_coord as int, self.grid_w());
                    }
                    y_coord = y_coord + 1;
                }
                proof {
                    assert(self.grid_h() * self.grid_w() == self.cells()) by (nonlinear_arith);
                    assert(self.opt_cells(o, v, k, self.grid_h() * self.grid_w()) == sentinel());
                    self.lemma_stack_opt_dominates(stack@);
                    lemma_join_absorb(self.stack_opt(stack@), sentinel());
                    // the popped branch is gone: the measure shrank by at least one unit
                    assert(self.pow_cells(n - k) == ((self.cells() + 1) as nat) * self.pow_cells(
                        n - k - 1,
                    ));
                    lemma_mul_distrib(self.cells(), self.pow_cells(n - k - 1) as int);
                    self.lemma_pow_cells_pos(n - k - 1);
                    assert(self.stack_measure(stack@) < m0);
                }
            }
        }
        proof {
            lemma_join_absorb(best, sentinel());
        }
        best
    }
}

/// A product of a positive and a one-or-larger factor is at least the latter.
pub proof fn lemma_mul_ge(a: int, b: int)
    by (nonlinear_arith)
    requires
        a >= 1,
        b >= 1,
    ensures
        a * b >= b,
        a * b >= a,
{
}

/// Distributing one more step over a factor.
pub proof fn lemma_mul_distrib(a: int, b: int)
    by (nonlinear_arith)
    ensures
        (a + 1) * b == a * b + b,
{
}

pub proof fn lemma_suffix_sum_nonneg(mv: Seq<i32>, k: int, n: int)
    requires
        forall|i: int| 0 <= i < mv.len() ==> 0 <= (#[trigger] mv[i]),
        n <= mv.len(),
        0 <= k,
    ensures
        suffix_sum(mv, k, n) >= 0,
    decreases n - k,
{
    if n > k {
        lemma_suffix_sum_nonneg(mv, k, n - 1);
    }
}

/// Peeling the first remaining probe off a suffix sum.
pub proof fn lemma_suffix_sum_head(mv: Seq<i32>, k: int, n: int)
    requires
        0 <= k < n,
    ensures
        suffix_sum(mv, k, n) == mv[k] + suffix_sum(mv, k + 1, n),
    decreases n - k,
{
    if k + 1 < n {
        lemma_suffix_sum_head(mv, k, n - 1);
    } else {
        assert(suffix_sum(mv, k, k) == 0);
        assert(suffix_sum(mv, k + 1, n) == 0);
    }
}

/// A selection sum over a probe suffix is the suffix sum.
pub proof fn lemma_sel_seg(mv: Seq<i32>, k: int, nn: int, n: int)
    requires
        0 <= k <= nn <= 8,
        0 <= n <= nn,
    ensures
        sel_sum(mv, seg_mask8(k, nn), n) == if n <= k {
            0
        } else {
            suffix_sum(mv, k, n)
        },
    decreases n,
{
    if n > 0 {
        lemma_sel_seg(mv, k, nn, n - 1);
        lemma_seg_mask8_bits(k, nn, n - 1);
        if n - 1 == k {
            assert(suffix_sum(mv, k, k) == 0);
        }
    }
}

} // verus!
