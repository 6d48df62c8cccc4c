//! The solver's central type: an immutable altitude grid together with the
//! sorted probe list and the precomputed per-probe visibility tables.
//!
//! Cells are addressed row-major: cell `(x, y)` has linear index `y*W + x`,
//! and every 64-bit mask in the crate is a set of such indices.

use vstd::prelude::*;

use crate::bits::{bit64, bits_below, lemma_bit_or, lemma_bit_single, lemma_bit_test, lemma_or_absorb_bit, lemma_or_assoc, lemma_or_comm, lemma_or_zero, pop64, popcount64};

verus! {

pub struct Agent {
    /// Probe visibility ranges, sorted in descending order once analyzed.
    pub probes: Vec<i32>,
    /// For each probe, the best observed-cell count over all placements.
    pub probes_max_vis: Vec<i32>,
    /// Row-major altitude matrix.
    pub board: Vec<Vec<i32>>,
    /// For each probe and each cell, the visibility mask from that cell.
    pub probe_visions: Vec<Vec<u64>>,
    pub board_width: i32,
    pub board_height: i32,
}

pub open spec fn slope_le(d1: int, k1: int, d2: int, k2: int) -> bool {
    d1 * k2 <= d2 * k1
}

/// The eight principal and diagonal ray directions, x component.
pub open spec fn dir_dx(d: int) -> int {
    if d == 0 || d == 1 {
        0
    } else if d == 2 || d == 4 || d == 5 {
        1
    } else {
        -1
    }
}

/// The eight principal and diagonal ray directions, y component.
pub open spec fn dir_dy(d: int) -> int {
    if d == 2 || d == 3 {
        0
    } else if d == 0 || d == 4 || d == 6 {
        -1
    } else {
        1
    }
}

/// Bits `[k, n)` of a probe set, the probes not yet placed.
pub open spec fn seg_mask8(k: int, n: int) -> u8
    decreases n - k,
{
    if k < 0 || n <= k || n > 8 {
        0
    } else {
        (1u8 << (k as u8)) | seg_mask8(k + 1, n)
    }
}

/// True when bit `i` of the probe set `v` is set; meaningful for `0 <= i < 8`.
pub open spec fn bit8(v: u8, i: int) -> bool {
    (v >> (i as u8)) & 1 == 1
}

/// Sum of `mv[i]` over the probe indices `i < n` present in `rem`.
pub open spec fn sel_sum(mv: Seq<i32>, rem: u8, n: int) -> int
    decreases n,
{
    if n <= 0 {
        0
    } else {
        sel_sum(mv, rem, n - 1) + if bit8(rem, n - 1) {
            mv[n - 1] as int
        } else {
            0
        }
    }
}

/// Sum of `mv[i]` over `k <= i < n`.
pub open spec fn suffix_sum(mv: Seq<i32>, k: int, n: int) -> int
    decreases n - k,
{
    if n <= k {
        0
    } else {
        suffix_sum(mv, k, n - 1) + mv[n - 1] as int
    }
}

/// Some entry of `tbl` has popcount exactly `m`.
pub open spec fn pop_max_attained(tbl: Seq<u64>, m: int) -> bool {
    exists|c: int| 0 <= c < tbl.len() && pop64(#[trigger] tbl[c]) == m
}

pub open spec fn in_grid_g(w: int, h: int, x: int, y: int) -> bool {
    0 <= x < w && 0 <= y < h
}

pub open spec fn alt_g(b: Seq<Vec<i32>>, x: int, y: int) -> int {
    b[y]@[x] as int
}

pub open spec fn idx_g(w: int, x: int, y: int) -> int {
    y * w + x
}

pub open spec fn alt_idx_g(b: Seq<Vec<i32>>, w: int, i: int) -> int {
    alt_g(b, i % w, i / w)
}

pub open spec fn alt_sum_n_g(b: Seq<Vec<i32>>, w: int, v: u64, n: int) -> int
    decreases n,
{
    if n <= 0 {
        0
    } else {
        alt_sum_n_g(b, w, v, n - 1) + if bit64(v, n - 1) {
            alt_idx_g(b, w, n - 1)
        } else {
            0
        }
    }
}

pub open spec fn ray_delta_g(b: Seq<Vec<i32>>, ox: int, oy: int, d: int, k: int) -> int {
    alt_g(b, ox + k * dir_dx(d), oy + k * dir_dy(d)) - alt_g(b, ox, oy)
}

pub open spec fn ray_clear_g(b: Seq<Vec<i32>>, ox: int, oy: int, d: int, k: int) -> bool {
    forall|j: int|
        1 <= j < k ==> slope_le(#[trigger] ray_delta_g(b, ox, oy, d, j), j,
            ray_delta_g(b, ox, oy, d, k), k)
}

pub open spec fn ray_cell_seen_g(
    b: Seq<Vec<i32>>,
    w: int,
    h: int,
    ox: int,
    oy: int,
    d: int,
    k: int,
    r: int,
) -> bool {
    &&& in_grid_g(w, h, ox + k * dir_dx(d), oy + k * dir_dy(d))
    &&& k * k * (dir_dx(d) * dir_dx(d) + dir_dy(d) * dir_dy(d)) <= r * r
    &&& ray_clear_g(b, ox, oy, d, k)
}

pub open spec fn ray_bit_g(
    b: Seq<Vec<i32>>,
    w: int,
    h: int,
    ox: int,
    oy: int,
    d: int,
    k: int,
    r: int,
) -> u64 {
    if ray_cell_seen_g(b, w, h, ox, oy, d, k, r) {
        1u64 << (idx_g(w, ox + k * dir_dx(d), oy + k * dir_dy(d)) as u64)
    } else {
        0
    }
}

pub open spec fn ray_mask_upto_g(
    b: Seq<Vec<i32>>,
    w: int,
    h: int,
    ox: int,
    oy: int,
    d: int,
    r: int,
    k: int,
) -> u64
    decreases k,
{
    if k <= 0 {
        0
    } else {
        ray_mask_upto_g(b, w, h, ox, oy, d, r, k - 1) | ray_bit_g(b, w, h, ox, oy, d, k, r)
    }
}

pub open spec fn dirs_mask_g(
    b: Seq<Vec<i32>>,
    w: int,
    h: int,
    ox: int,
    oy: int,
    r: int,
    d: int,
) -> u64
    decreases d,
{
    if d <= 0 {
        1u64 << (idx_g(w, ox, oy) as u64)
    } else {
        dirs_mask_g(b, w, h, ox, oy, r, d - 1) | ray_mask_upto_g(b, w, h, ox, oy, d - 1, r, 63)
    }
}

pub open spec fn vision_mask_g(b: Seq<Vec<i32>>, w: int, h: int, ox: int, oy: int, r: int) -> u64 {
    dirs_mask_g(b, w, h, ox, oy, r, 8)
}

impl Agent {
    pub open spec fn grid_w(self) -> int {
        self.board_width as int
    }

    pub open spec fn grid_h(self) -> int {
        self.board_height as int
    }

    /// Number of grid cells; every mask index is below it.
    pub open spec fn cells(self) -> int {
        self.grid_w() * self.grid_h()
    }

    pub open spec fn grid_wf(self) -> bool {
        &&& 1 <= self.grid_w()
        &&& 1 <= self.grid_h()
        &&& self.cells() <= 64
        &&& self.board@.len() == self.grid_h()
        &&& forall|y: int| 0 <= y < self.grid_h() ==> (#[trigger] self.board@[y])@.len() == self.grid_w()
    }

    #[verifier::inline]
    pub open spec fn in_grid(self, x: int, y: int) -> bool {
        in_grid_g(self.grid_w(), self.grid_h(), x, y)
    }

    #[verifier::inline]
    pub open spec fn alt_at(self, x: int, y: int) -> int {
        alt_g(self.board@, x, y)
    }

    #[verifier::inline]
    pub open spec fn idx_of(self, x: int, y: int) -> int {
        idx_g(self.grid_w(), x, y)
    }

    /// Altitude of the cell with linear index `i`.
    #[verifier::inline]
    pub open spec fn alt_idx(self, i: int) -> int {
        alt_idx_g(self.board@, self.grid_w(), i)
    }

    /// Sum of the altitudes of the cells whose bits below `n` are set in `v`.
    #[verifier::inline]
    pub open spec fn alt_sum_n(self, v: u64, n: int) -> int {
        alt_sum_n_g(self.board@, self.grid_w(), v, n)
    }

    /// Sum of the altitudes of the cells in the mask `v`.
    #[verifier::inline]
    pub open spec fn alt_sum(self, v: u64) -> int {
        self.alt_sum_n(v, 64)
    }

    /// Altitude of the cell `k` steps along ray `d` relative to the origin.
    #[verifier::inline]
    pub open spec fn ray_delta(self, ox: int, oy: int, d: int, k: int) -> int {
        ray_delta_g(self.board@, ox, oy, d, k)
    }

    /// Line of sight along ray `d` reaches step `k`: no closer cell on the ray
    /// has a strictly larger slope.
    #[verifier::inline]
    pub open spec fn ray_clear(self, ox: int, oy: int, d: int, k: int) -> bool {
        ray_clear_g(self.board@, ox, oy, d, k)
    }

    /// The cell `k` steps along ray `d` is observed from the origin at range `r`:
    /// it lies in the grid, within Euclidean distance `r`, and is not occluded.
    #[verifier::inline]
    pub open spec fn ray_cell_seen(self, ox: int, oy: int, d: int, k: int, r: int) -> bool {
        ray_cell_seen_g(self.board@, self.grid_w(), self.grid_h(), ox, oy, d, k, r)
    }

    #[verifier::inline]
    pub open spec fn ray_bit(self, ox: int, oy: int, d: int, k: int, r: int) -> u64 {
        ray_bit_g(self.board@, self.grid_w(), self.grid_h(), ox, oy, d, k, r)
    }

    /// Observed cells among the first `k` steps of ray `d`.
    #[verifier::inline]
    pub open spec fn ray_mask_upto(self, ox: int, oy: int, d: int, r: int, k: int) -> u64 {
        ray_mask_upto_g(self.board@, self.grid_w(), self.grid_h(), ox, oy, d, r, k)
    }

    /// Observed cells of the origin plus the first `d` rays, each walked to
    /// its full extent (63 steps always leave the grid).
    #[verifier::inline]
    pub open spec fn dirs_mask(self, ox: int, oy: int, r: int, d: int) -> u64 {
        dirs_mask_g(self.board@, self.grid_w(), self.grid_h(), ox, oy, r, d)
    }

    /// The visibility mask of a probe of range `r` placed at `(ox, oy)`.
    #[verifier::inline]
    pub open spec fn vision_mask(self, ox: int, oy: int, r: int) -> u64 {
        vision_mask_g(self.board@, self.grid_w(), self.grid_h(), ox, oy, r)
    }

    pub open spec fn probes_wf(self) -> bool {
        &&& self.probes@.len() <= 8
        &&& forall|i: int| 0 <= i < self.probes@.len() ==> (#[trigger] self.probes@[i]) >= 1
    }

    pub open spec fn probes_sorted(self) -> bool {
        forall|i: int, j: int|
            0 <= i <= j < self.probes@.len() ==> #[trigger] self.probes@[i] >= #[trigger] self.probes@[j]
    }

    /// The precomputed tables agree with `vision_mask`, and each per-probe
    /// maximum is attained and bounds every entry's popcount.
    pub open spec fn table_wf(self) -> bool {
        &&& self.probe_visions@.len() == self.probes@.len()
        &&& self.probes_max_vis@.len() == self.probes@.len()
        &&& forall|p: int|
            0 <= p < self.probes@.len() ==> (#[trigger] self.probe_visions@[p])@.len()
                == self.cells()
        &&& forall|p: int, c: int|
            0 <= p < self.probes@.len() && 0 <= c < self.cells() ==> (
            #[trigger] self.probe_visions@[p]@[c]) == self.vision_mask(
                c % self.grid_w(),
                c / self.grid_w(),
                self.probes@[p] as int,
            )
        &&& forall|p: int, c: int|
            0 <= p < self.probes@.len() && 0 <= c < self.cells() ==> pop64(
                #[trigger] self.probe_visions@[p]@[c]) <= self.probes_max_vis@[p]
        &&& forall|p: int|
            0 <= p < self.probes@.len() ==> pop_max_attained(
                (#[trigger] self.probe_visions@[p])@,
                self.probes_max_vis@[p] as int,
            )
        &&& forall|p: int|
            0 <= p < self.probes@.len() ==> 0 <= (#[trigger] self.probes_max_vis@[p]) <= 64
    }

    /// Full well-formedness: established by `new`, preserved ever after.
    pub open spec fn wf(self) -> bool {
        &&& self.grid_wf()
        &&& self.probes_wf()
        &&& self.probes_sorted()
        &&& self.table_wf()
    }

    /// Builds the solver state from a parsed altitude matrix and probe list:
    /// records the grid, then sorts the probes and precomputes the tables.
    pub fn new(board: Vec<Vec<i32>>, probes: Vec<i32>) -> (agent: Agent)
        requires
            1 <= board@.len() <= 64,
            1 <= board@[0]@.len(),
            board@[0]@.len() * board@.len() <= 64,
            forall|y: int| 0 <= y < board@.len() ==> (#[trigger] board@[y])@.len() == board@[0]@.len(),
            probes@.len() <= 8,
            forall|i: int| 0 <= i < probes@.len() ==> (#[trigger] probes@[i]) >= 1,
        ensures
            agent.wf(),
            agent.board@ == board@,
            agent.grid_h() == board@.len(),
            agent.grid_w() == board@[0]@.len(),
            agent.probes@.to_multiset() == probes@.to_multiset(),
    {
        proof {
            lemma_dims(board@[0]@.len() as int, board@.len() as int);
        }
        let board_height = board.len() as i32;
        let board_width = board[0].len() as i32;
        let mut new_read = Agent {
            probes,
            probes_max_vis: Vec::new(),
            probe_visions: Vec::new(),
            board,
            board_width,
            board_height,
        };
        new_read.analyze_probes();
        new_read
    }

    /// Linear index of `(x, y)`, usable as a mask bit position.
    pub fn coord_to_index(&self, x: i32, y: i32) -> (r: usize)
        requires
            self.grid_wf(),
            self.in_grid(x as int, y as int),
        ensures
            r == self.idx_of(x as int, y as int),
            r < self.cells(),
    {
        proof {
            lemma_cell_index_bounds(x as int, y as int, self.grid_w(), self.grid_h());
        }
        (y * self.board_width + x) as usize
    }

    /// Inverse of `coord_to_index`: the `(x, y)` coordinates of a linear index.
    pub fn index_to_coord(&self, index: usize) -> (r: (i32, i32))
        requires
            self.grid_wf(),
            index < self.cells(),
        ensures
            r.0 == index as int % self.grid_w(),
            r.1 == index as int / self.grid_w(),
            self.in_grid(r.0 as int, r.1 as int),
            self.idx_of(r.0 as int, r.1 as int) == index,
    {
        proof {
            lemma_index_decompose(index as int, self.grid_w(), self.grid_h());
        }
        let x: usize = index % self.board_width as usize;
        let y: usize = index / self.board_width as usize;
        (x as i32, y as i32)
    }

    /// Whether the cell `(x, y)` is present in the mask `occupied`.
    pub fn is_occupied(&self, x: i32, y: i32, occupied: &u64) -> (r: bool)
        requires
            self.grid_wf(),
            self.in_grid(x as int, y as int),
        ensures
            r == bit64(*occupied, self.idx_of(x as int, y as int)),
    {
        let index = self.coord_to_index(x, y);
        proof {
            lemma_bit_test(*occupied, index as int);
        }
        (*occupied & (1u64 << index)) != 0
    }

    /// Adds the cell `(x, y)` to the mask `occupied`.
    pub fn mark_occupied(&self, x: i32, y: i32, occupied: &mut u64)
        requires
            self.grid_wf(),
            self.in_grid(x as int, y as int),
        ensures
            *final(occupied) == *old(occupied) | (1u64 << (self.idx_of(x as int, y as int) as u64)),
    {
        let index = self.coord_to_index(x, y);
        *occupied |= 1 << index;
    }

    pub fn coord_is_viable(&self, x: i32, y: i32) -> (r: bool)
        ensures
            r == self.in_grid(x as int, y as int),
    {
        x >= 0 && y >= 0 && x < self.board_width && y < self.board_height
    }

    /// The initial probe set: one bit per probe, all still to be placed.
    pub fn translate_probes_to_u8(&self) -> (r: u8)
        requires
            self.probes@.len() <= 8,
        ensures
            r == seg_mask8(0, self.probes@.len() as int),
    {
        let mut probe_storage: u8 = 0;
        let mut index: usize = 0;
        let n = self.probes.len();
        while index < n
            invariant
                index <= n <= 8,
                probe_storage == seg_mask8(0, index as int),
            decreases n - index,
        {
            proof {
                lemma_seg_mask8_extend(0, index as int);
            }
            probe_storage |= 1 << index;
            index = index + 1;
        }
        probe_storage
    }

    /// Removes probe `index` from the set of remaining probes.
    pub fn remove_probe(&self, bitmap: &mut u8, index: usize)
        requires
            index < 8,
        ensures
            *final(bitmap) == *old(bitmap) & !(1u8 << (index as u8)),
    {
        *bitmap &= !(1 << index);
    }

    /// Precomputed visibility mask of probe `probe_index` placed at `(x, y)`.
    pub fn get_visible_peaks(&self, probe_index: usize, x: i32, y: i32) -> (r: u64)
        requires
            self.wf(),
            probe_index < self.probes@.len(),
            self.in_grid(x as int, y as int),
        ensures
            r == self.vision_mask(x as int, y as int, self.probes@[probe_index as int] as int),
            r == self.probe_visions@[probe_index as int]@[self.idx_of(x as int, y as int)],
    {
        proof {
            lemma_idx_coords(x as int, y as int, self.grid_w(), self.grid_h());
        }
        self.probe_visions[probe_index][self.coord_to_index(x, y)]
    }

    /// Sum of the altitudes of the cells in `visited`.
    pub fn get_visited_altitudes(&self, visited: u64) -> (r: i64)
        requires
            self.grid_wf(),
            bits_below(visited, self.cells()),
        ensures
            r == self.alt_sum(visited),
    {
        let mut sum: i64 = 0;
        let mut index: usize = 0;
        while index < 64
            invariant
                index <= 64,
                self.grid_wf(),
                bits_below(visited, self.cells()),
                sum == self.alt_sum_n(visited, index as int),
                -0x8000_0000i64 * index <= sum <= 0x8000_0000i64 * index,
            decreases 64 - index,
        {
            proof {
                lemma_bit_test(visited, index as int);
            }
            if (visited & (1u64 << index)) != 0 {
                let (x, y) = self.index_to_coord(index);
                sum = sum + self.board[y as usize][x as usize] as i64;
            }
            index = index + 1;
        }
        sum
    }

    /// Admissible branch-and-bound test: even if every remaining probe in
    /// `remaining_probes` attained its best possible coverage, the branch
    /// could not beat `best_visited_peaks`.
    pub fn can_prune(&self, remaining_probes: u8, best_visited_peaks: i32, current_visited_peaks: i32) -> (r: bool)
        requires
            self.probes@.len() <= 8,
            self.probes_max_vis@.len() == self.probes@.len(),
            forall|i: int|
                0 <= i < self.probes_max_vis@.len() ==> 0 <= (#[trigger] self.probes_max_vis@[i])
                    <= 64,
            0 <= current_visited_peaks <= 64,
        ensures
            r == (current_visited_peaks + sel_sum(
                self.probes_max_vis@,
                remaining_probes,
                self.probes@.len() as int,
            ) < best_visited_peaks),
    {
        let mut potential_visited_peaks = current_visited_peaks;
        let n = self.probes.len();
        let mut index_probe: usize = 0;
        while index_probe < n
            invariant
                index_probe <= n <= 8,
                self.probes_max_vis@.len() == n,
                forall|i: int|
                    0 <= i < self.probes_max_vis@.len() ==> 0 <= (
                    #[trigger] self.probes_max_vis@[i]) <= 64,
                0 <= current_visited_peaks <= 64,
                potential_visited_peaks == current_visited_peaks + sel_sum(
                    self.probes_max_vis@,
                    remaining_probes,
                    index_probe as int,
                ),
                current_visited_peaks <= potential_visited_peaks <= current_visited_peaks + 64
                    * index_probe,
            decreases n - index_probe,
        {
            proof {
                lemma_bit_test8(remaining_probes, index_probe as int);
            }
            if remaining_probes & (1 << index_probe) != 0 {
                potential_visited_peaks += self.probes_max_vis[index_probe];
            }
            index_probe = index_probe + 1;
        }
        potential_visited_peaks < best_visited_peaks
    }
}

/// One step of the eight compass directions, in the fixed scan order.
pub fn dir_step(d: usize) -> (r: (i32, i32))
    requires
        d < 8,
    ensures
        r.0 == dir_dx(d as int),
        r.1 == dir_dy(d as int),
{
    if d == 0 {
        (0, -1)
    } else if d == 1 {
        (0, 1)
    } else if d == 2 {
        (1, 0)
    } else if d == 3 {
        (-1, 0)
    } else if d == 4 {
        (1, -1)
    } else if d == 5 {
        (1, 1)
    } else if d == 6 {
        (-1, -1)
    } else {
        (-1, 1)
    }
}

/// A grid with at most 64 cells has both sides at most 64.
pub proof fn lemma_dims(w: int, h: int)
    by (nonlinear_arith)
    requires
        1 <= w,
        1 <= h,
        w * h <= 64,
    ensures
        w <= 64,
        h <= 64,
{
}

/// Slopes compared by cross-multiplication are transitive.
pub proof fn lemma_slope_trans(d1: int, k1: int, d2: int, k2: int, d3: int, k3: int)
    by (nonlinear_arith)
    requires
        k1 >= 1,
        k2 >= 1,
        k3 >= 1,
        d1 * k2 <= d2 * k1,
        d2 * k3 <= d3 * k2,
    ensures
        d1 * k3 <= d3 * k1,
{
}

/// Stepping along a ray is one more multiple of the direction vector.
pub proof fn lemma_mul_step(k: int, s: int)
    by (nonlinear_arith)
    requires
        -1 <= s <= 1,
        0 <= k <= 63,
    ensures
        (k + 1) * s == k * s + s,
        -63 <= k * s <= 63,
        -64 <= (k + 1) * s <= 64,
{
}

/// Once a ray leaves the grid it never comes back.
pub proof fn lemma_step_oob(ox: int, oy: int, w: int, h: int, dx: int, dy: int, k: int, j: int)
    by (nonlinear_arith)
    requires
        -1 <= dx <= 1,
        -1 <= dy <= 1,
        0 <= ox < w,
        0 <= oy < h,
        1 <= k <= j,
        !(0 <= ox + k * dx < w && 0 <= oy + k * dy < h),
    ensures
        !(0 <= ox + j * dx < w && 0 <= oy + j * dy < h),
{
}

/// Once a ray passes the range cutoff it stays beyond it.
pub proof fn lemma_step_far(k: int, j: int, c2: int, rr: int)
    by (nonlinear_arith)
    requires
        1 <= k <= j,
        c2 >= 0,
        k * k * c2 > rr,
    ensures
        j * j * c2 > rr,
{
}

/// Products of bounded factors are bounded.
pub proof fn lemma_abs_mul_bound(a: int, b: int, ca: int, cb: int)
    by (nonlinear_arith)
    requires
        -ca <= a <= ca,
        -cb <= b <= cb,
        0 <= ca,
        0 <= cb,
    ensures
        -(ca * cb) <= a * b <= ca * cb,
{
}

/// A ray step that stays inside a small grid has a small step count.
pub proof fn lemma_step_bound(ox: int, oy: int, w: int, h: int, sx: int, sy: int, k: int)
    by (nonlinear_arith)
    requires
        0 <= ox < w <= 64,
        0 <= oy < h <= 64,
        1 <= k,
        -1 <= sx <= 1,
        -1 <= sy <= 1,
        sx != 0 || sy != 0,
        0 <= ox + k * sx < w,
        0 <= oy + k * sy < h,
    ensures
        k <= 63,
{
}

pub proof fn lemma_sq_nonneg(a: int)
    by (nonlinear_arith)
    ensures
        a * a >= 0,
{
}

/// Squared Euclidean distance of `k` steps along a direction vector.
pub proof fn lemma_dist2_expand(k: int, sx: int, sy: int)
    by (nonlinear_arith)
    ensures
        (k * sx) * (k * sx) + (k * sy) * (k * sy) == k * k * (sx * sx + sy * sy),
{
}

/// Row-major indexing stays inside `[0, w*h)`.
pub proof fn lemma_cell_index_bounds(x: int, y: int, w: int, h: int)
    by (nonlinear_arith)
    requires
        0 <= x < w,
        0 <= y < h,
    ensures
        0 <= y * w + x < w * h,
{
}

/// Division and remainder recover the coordinates of a linear index.
pub proof fn lemma_index_decompose(i: int, w: int, h: int)
    by (nonlinear_arith)
    requires
        w >= 1,
        h >= 1,
        0 <= i < w * h,
    ensures
        0 <= i % w < w,
        0 <= i / w < h,
        (i / w) * w + i % w == i,
{
}

/// The coordinates of a row-major index are recovered by `%` and `/`.
pub proof fn lemma_idx_coords(x: int, y: int, w: int, h: int)
    by (nonlinear_arith)
    requires
        0 <= x < w,
        0 <= y < h,
    ensures
        (y * w + x) % w == x,
        (y * w + x) / w == y,
{
}

/// The exec-side test of a probe bit agrees with `bit8`.
pub proof fn lemma_bit_test8(v: u8, i: int)
    requires
        0 <= i < 8,
    ensures
        (v & (1u8 << (i as u8)) != 0) == bit8(v, i),
{
    let iu = i as u8;
    assert(iu < 8 ==> ((v & (1u8 << iu) != 0) == ((v >> iu) & 1 == 1))) by (bit_vector);
}

/// Bit `i` of a probe segment mask is set exactly when `k <= i < n`.
pub proof fn lemma_seg_mask8_bits(k: int, n: int, i: int)
    requires
        0 <= k,
        n <= 8,
        0 <= i < 8,
    ensures
        bit8(seg_mask8(k, n), i) == (k <= i < n),
    decreases n - k,
{
    if k < 0 || n <= k || n > 8 {
        let z = 0u8;
        assert(forall|j: u8| j < 8 ==> ((0u8 >> j) & 1) != 1) by (bit_vector);
        assert(!bit8(0u8, i));
    } else {
        lemma_seg_mask8_bits(k + 1, n, i);
        let rest = seg_mask8(k + 1, n);
        let ku = k as u8;
        let iu = i as u8;
        assert(ku < 8 && iu < 8 ==> (((((1u8 << ku) | rest) >> iu) & 1 == 1) == (ku == iu || ((rest
            >> iu) & 1 == 1)))) by (bit_vector);
    }
}

/// Raising a segment mask's upper end by one adds that single bit.
pub proof fn lemma_seg_mask8_extend(k: int, n: int)
    requires
        0 <= k <= n < 8,
    ensures
        seg_mask8(k, n + 1) == seg_mask8(k, n) | (1u8 << (n as u8)),
    decreases n - k,
{
    if k == n {
        assert(seg_mask8(n + 1, n + 1) == 0);
        let nu = n as u8;
        assert((1u8 << nu) | 0 == 1u8 << nu) by (bit_vector);
        assert(0u8 | (1u8 << nu) == 1u8 << nu) by (bit_vector);
    } else {
        lemma_seg_mask8_extend(k + 1, n);
        let a = 1u8 << (k as u8);
        let b = seg_mask8(k + 1, n);
        let c = 1u8 << (n as u8);
        assert(a | (b | c) == (a | b) | c) by (bit_vector);
    }
}

/// Peeling the lowest probe off a segment mask.
pub proof fn lemma_seg_mask8_split(k: int, n: int)
    requires
        0 <= k < n <= 8,
    ensures
        seg_mask8(k, n) == (1u8 << (k as u8)) | seg_mask8(k + 1, n),
        seg_mask8(k + 1, n) == seg_mask8(k, n) & !(1u8 << (k as u8)),
{
    let rest = seg_mask8(k + 1, n);
    let ku = k as u8;
    assert forall|i: int| 0 <= i < 8 implies !(bit8(rest, i) && i == k) by {
        lemma_seg_mask8_bits(k + 1, n, i);
    }
    lemma_seg_mask8_bits(k + 1, n, k);
    assert(ku < 8 && (rest >> ku) & 1 != 1 ==> rest == (((1u8 << ku) | rest) & !(1u8 << ku)))
        by (bit_vector);
}

/// Distributing one more row over the row width.
pub proof fn lemma_row_step(y: int, w: int)
    by (nonlinear_arith)
    ensures
        (y + 1) * w == y * w + w,
{
}

/// In-place insertion sort into descending order.
fn sort_desc(v: &mut Vec<i32>)
    ensures
        final(v)@.len() == old(v)@.len(),
        forall|a: int, b: int|
            0 <= a <= b < final(v)@.len() ==> final(v)@[a] >= final(v)@[b],
        final(v)@.to_multiset() == old(v)@.to_multiset(),
{
    let mut i: usize = 1;
    while i < v.len()
        invariant
            1 <= i,
            v@.len() == old(v)@.len(),
            i <= v@.len() || v@.len() == 0,
            forall|a: int, b: int| 0 <= a <= b < i && b < v@.len() ==> v@[a] >= v@[b],
            v@.to_multiset() == old(v)@.to_multiset(),
        decreases v@.len() - i,
    {
        let mut j: usize = i;
        while j > 0 && v[j - 1] < v[j]
            invariant
                0 <= j <= i < v@.len(),
                v@.len() == old(v)@.len(),
                forall|a: int, b: int|
                    0 <= a <= b <= i && b != j ==> v@[a] >= v@[b],
                v@.to_multiset() == old(v)@.to_multiset(),
            decreases j,
        {
            let ghost s = v@;
            let lo = v[j - 1];
            let hi = v[j];
            v.set(j - 1, hi);
            v.set(j, lo);
            proof {
                broadcast use vstd::multiset::group_multiset_axioms;
                broadcast use vstd::seq_lib::group_to_multiset_ensures;

                assert(s[j - 1] == lo && s[j as int] == hi);
                assert(s.contains(lo) && s.contains(hi));
                vstd::seq_lib::to_multiset_update(s, j - 1, hi);
                vstd::seq_lib::to_multiset_update(s.update(j - 1 as int, hi), j as int, lo);
                assert(v@.to_multiset() =~= s.to_multiset());
            }
            j = j - 1;
        }
        i = i + 1;
    }
}

impl Agent {
    /// Setting a fresh bit adds exactly that cell's altitude to the sum.
    pub proof fn lemma_alt_sum_set_bit_n(self, v: u64, i: int, n: int)
        requires
            0 <= i < 64,
            !bit64(v, i),
            n <= 64,
        ensures
            self.alt_sum_n(v | (1u64 << (i as u64)), n) == self.alt_sum_n(v, n) + if i < n {
                self.alt_idx(i)
            } else {
                0
            },
        decreases n,
    {
        if n > 0 {
            self.lemma_alt_sum_set_bit_n(v, i, n - 1);
            lemma_bit_or(v, 1u64 << (i as u64), n - 1);
            lemma_bit_single(i, n - 1);
        }
    }

    pub proof fn lemma_alt_sum_set_bit(self, v: u64, i: int)
        requires
            0 <= i < 64,
            !bit64(v, i),
        ensures
            self.alt_sum(v | (1u64 << (i as u64))) == self.alt_sum(v) + self.alt_idx(i),
    {
        self.lemma_alt_sum_set_bit_n(v, i, 64);
    }

    /// Altitude sums stay within `n` times the altitude range.
    pub proof fn lemma_alt_sum_bound(self, v: u64, n: int)
        requires
            0 <= n <= 64,
        ensures
            -0x8000_0000 * n <= self.alt_sum_n(v, n) <= 0x8000_0000 * n,
        decreases n,
    {
        if n > 0 {
            self.lemma_alt_sum_bound(v, n - 1);
        }
    }

    /// A ray mask does not change over steps whose bits vanish.
    pub proof fn lemma_ray_mask_const(self, ox: int, oy: int, d: int, r: int, k0: int, k1: int)
        requires
            0 <= k0 <= k1,
            forall|j: int| k0 < j <= k1 ==> #[trigger] self.ray_bit(ox, oy, d, j, r) == 0,
        ensures
            self.ray_mask_upto(ox, oy, d, r, k1) == self.ray_mask_upto(ox, oy, d, r, k0),
        decreases k1 - k0,
    {
        if k1 > k0 {
            self.lemma_ray_mask_const(ox, oy, d, r, k0, k1 - 1);
            lemma_or_zero(self.ray_mask_upto(ox, oy, d, r, k1 - 1));
        }
    }

    /// Every bit of a ray mask is the index of a grid cell.
    pub proof fn lemma_ray_mask_bits_below(self, ox: int, oy: int, d: int, r: int, k: int)
        requires
            self.grid_wf(),
        ensures
            bits_below(self.ray_mask_upto(ox, oy, d, r, k), self.cells()),
        decreases k,
    {
        if k <= 0 {
            crate::bits::lemma_bits_below_zero(self.cells());
        } else {
            self.lemma_ray_mask_bits_below(ox, oy, d, r, k - 1);
            let b = self.ray_bit(ox, oy, d, k, r);
            if self.ray_cell_seen(ox, oy, d, k, r) {
                let nx = ox + k * dir_dx(d);
                let ny = oy + k * dir_dy(d);
                lemma_cell_index_bounds(nx, ny, self.grid_w(), self.grid_h());
                crate::bits::lemma_bits_below_single(self.idx_of(nx, ny), self.cells());
            } else {
                crate::bits::lemma_bits_below_zero(self.cells());
            }
            crate::bits::lemma_bits_below_or(
                self.ray_mask_upto(ox, oy, d, r, k - 1),
                b,
                self.cells(),
            );
        }
    }

    /// Every bit of a visibility mask is the index of a grid cell.
    pub proof fn lemma_vision_mask_bits_below_rec(self, ox: int, oy: int, r: int, d: int)
        requires
            self.grid_wf(),
            self.in_grid(ox, oy),
            0 <= d,
        ensures
            bits_below(self.dirs_mask(ox, oy, r, d), self.cells()),
        decreases d,
    {
        if d <= 0 {
            lemma_cell_index_bounds(ox, oy, self.grid_w(), self.grid_h());
            crate::bits::lemma_bits_below_single(self.idx_of(ox, oy), self.cells());
        } else {
            self.lemma_vision_mask_bits_below_rec(ox, oy, r, d - 1);
            self.lemma_ray_mask_bits_below(ox, oy, d - 1, r, 63);
            crate::bits::lemma_bits_below_or(
                self.dirs_mask(ox, oy, r, d - 1),
                self.ray_mask_upto(ox, oy, d - 1, r, 63),
                self.cells(),
            );
        }
    }

    pub proof fn lemma_vision_mask_bits_below(self, ox: int, oy: int, r: int)
        requires
            self.grid_wf(),
            self.in_grid(ox, oy),
        ensures
            bits_below(self.vision_mask(ox, oy, r), self.cells()),
    {
        self.lemma_vision_mask_bits_below_rec(ox, oy, r, 8);
    }

    /// Sorts the probes by descending range (the pruning heuristic places the
    /// strongest probes first) and precomputes, for every probe and every
    /// cell, the visibility mask of that probe placed there, together with
    /// each probe's best achievable observed-cell count.
    pub fn analyze_probes(&mut self)
        requires
            old(self).grid_wf(),
            old(self).probes_wf(),
            old(self).probe_visions@.len() == 0,
            old(self).probes_max_vis@.len() == 0,
        ensures
            final(self).wf(),
            final(self).board == old(self).board,
            final(self).board_width == old(self).board_width,
            final(self).board_height == old(self).board_height,
            final(self).probes@.to_multiset() == old(self).probes@.to_multiset(),
    {
        let ghost probes0 = self.probes@;
        sort_desc(&mut self.probes);
        proof {
            broadcast use vstd::seq_lib::group_to_multiset_ensures;

            assert forall|i: int| 0 <= i < self.probes@.len() implies (#[trigger] self.probes@[i])
                >= 1 by {
                assert(self.probes@.contains(self.probes@[i]));
                assert(self.probes@.to_multiset().count(self.probes@[i]) > 0);
                assert(probes0.to_multiset().count(self.probes@[i]) > 0);
                assert(probes0.contains(self.probes@[i]));
            }
        }
        let n = self.probes.len();
        let mut probe_visibility_index: usize = 0;
        while probe_visibility_index < n
            invariant
                self.grid_wf(),
                self.probes_wf(),
                self.probes_sorted(),
                n == self.probes@.len(),
                self.probes@.to_multiset() == probes0.to_multiset(),
                self.board == old(self).board,
                self.board_width == old(self).board_width,
                self.board_height == old(self).board_height,
                probe_visibility_index <= n,
                self.probe_visions@.len() == probe_visibility_index,
                self.probes_max_vis@.len() == probe_visibility_index,
                forall|p: int|
                    0 <= p < probe_visibility_index ==> (#[trigger] self.probe_visions@[p])@.len()
                        == self.cells(),
                forall|p: int, c: int|
                    0 <= p < probe_visibility_index && 0 <= c < self.cells() ==> (
                    #[trigger] self.probe_visions@[p]@[c]) == self.vision_mask(
                        c % self.grid_w(),
                        c / self.grid_w(),
                        self.probes@[p] as int,
                    ),
                forall|p: int, c: int|
                    0 <= p < probe_visibility_index && 0 <= c < self.cells() ==> pop64(
                        #[trigger] self.probe_visions@[p]@[c]) <= self.probes_max_vis@[p],
                forall|p: int|
                    0 <= p < probe_visibility_index ==> pop_max_attained(
                        (#[trigger] self.probe_visions@[p])@,
                        self.probes_max_vis@[p] as int,
                    ),
                forall|p: int|
                    0 <= p < probe_visibility_index ==> 0 <= (#[trigger] self.probes_max_vis@[p])
                        <= 64,
            decreases n - probe_visibility_index,
        {
            let ghost pv_tables0 = self.probe_visions@;
            let ghost mv0 = self.probes_max_vis@;
            let probe_visibility = self.probes[probe_visibility_index];
            let mut probe_visions_new: Vec<u64> = Vec::new();
            let mut best_visibility: i32 = 0;
            let mut y_coord: i32 = 0;
            while y_coord < self.board_height
                invariant
                    self.grid_wf(),
                    self.probes_wf(),
                    probe_visibility == self.probes@[probe_visibility_index as int],
                    probe_visibility_index < self.probes@.len(),
                    0 <= y_coord <= self.grid_h(),
                    probe_visions_new@.len() == y_coord * self.grid_w(),
                    forall|c: int|
                        0 <= c < probe_visions_new@.len() ==> (#[trigger] probe_visions_new@[c])
                            == self.vision_mask(
                            c % self.grid_w(),
                            c / self.grid_w(),
                            probe_visibility as int,
                        ),
                    forall|c: int|
                        0 <= c < probe_visions_new@.len() ==> pop64(#[trigger] probe_visions_new@[c])
                            <= best_visibility,
                    probe_visions_new@.len() > 0 ==> pop_max_attained(
                        probe_visions_new@,
                        best_visibility as int,
                    ),
                    probe_visions_new@.len() == 0 ==> best_visibility == 0,
                    0 <= best_visibility <= 64,
                decreases self.grid_h() - y_coord,
            {
                let mut x_coord: i32 = 0;
                while x_coord < self.board_width
                    invariant
                        self.grid_wf(),
                        self.probes_wf(),
                        probe_visibility == self.probes@[probe_visibility_index as int],
                        probe_visibility_index < self.probes@.len(),
                        0 <= y_coord < self.grid_h(),
                        0 <= x_coord <= self.grid_w(),
                        probe_visions_new@.len() == y_coord * self.grid_w() + x_coord,
                        forall|c: int|
                            0 <= c < probe_visions_new@.len() ==> (#[trigger] probe_visions_new@[c])
                                == self.vision_mask(
                                c % self.grid_w(),
                                c / self.grid_w(),
                                probe_visibility as int,
                            ),
                        forall|c: int|
                            0 <= c < probe_visions_new@.len() ==> pop64(
                                #[trigger] probe_visions_new@[c]) <= best_visibility,
                        probe_visions_new@.len() > 0 ==> pop_max_attained(
                            probe_visions_new@,
                            best_visibility as int,
                        ),
                        probe_visions_new@.len() == 0 ==> best_visibility == 0,
                        0 <= best_visibility <= 64,
                    decreases self.grid_w() - x_coord,
                {
                    let mut current_visited: u64 = 0;
                    let _ = self.calculate_vision_score(
                        &x_coord,
                        &y_coord,
                        &mut current_visited,
                        probe_visibility,
                    );
                    proof {
                        lemma_or_zero(
                            self.vision_mask(x_coord as int, y_coord as int, probe_visibility as int),
                        );
                        lemma_or_comm(
                            0,
                            self.vision_mask(x_coord as int, y_coord as int, probe_visibility as int),
                        );
                        lemma_cell_index_bounds(
                            x_coord as int,
                            y_coord as int,
                            self.grid_w(),
                            self.grid_h(),
                        );
                        lemma_idx_coords(x_coord as int, y_coord as int, self.grid_w(), self.grid_h());
                    }
                    let new_best = popcount64(current_visited) as i32;
                    let ghost old_vis = probe_visions_new@;
                    let ghost old_best = best_visibility;
                    probe_visions_new.push(current_visited);
                    if new_best > best_visibility {
                        best_visibility = new_best;
                    }
                    proof {
                        let len0 = old_vis.len() as int;
                        assert(probe_visions_new@[len0] == current_visited);
                        if new_best > old_best {
                            assert(pop64(probe_visions_new@[len0]) == best_visibility);
                        } else if len0 == 0 {
                            assert(pop64(probe_visions_new@[len0]) == best_visibility);
                        } else {
                            let wtns = choose|c: int|
                                0 <= c < old_vis.len() && pop64(#[trigger] old_vis[c])
                                    == old_best;
                            assert(probe_visions_new@[wtns] == old_vis[wtns]);
                            assert(pop64(probe_visions_new@[wtns]) == best_visibility);
                        }
                        assert(pop_max_attained(probe_visions_new@, best_visibility as int));
                    }
                    x_coord = x_coord + 1;
                }
                proof {
                    lemma_row_step(y_coord as int, self.grid_w());
                }
                y_coord = y_coord + 1;
            }
            let ghost pv_new = probe_visions_new@;
            let ghost pidx = probe_visibility_index as int;
            proof {
                assert(self.grid_h() * self.grid_w() == self.grid_w() * self.grid_h())
                    by (nonlinear_arith);
                lemma_cell_index_bounds(0, 0, self.grid_w(), self.grid_h());
                assert(self.cells() >= 1);
                assert(pv_new.len() == self.cells());
                assert forall|c: int| 0 <= c < self.cells() implies #[trigger] pv_new[c]
                    == self.vision_mask(
                    c % self.grid_w(),
                    c / self.grid_w(),
                    probe_visibility as int,
                ) by {
                    assert(pv_new[c] == probe_visions_new@[c]);
                }
                assert forall|c: int| 0 <= c < pv_new.len() implies pop64(#[trigger] pv_new[c])
                    <= best_visibility by {
                    assert(pv_new[c] == probe_visions_new@[c]);
                }
                assert(pop_max_attained(pv_new, best_visibility as int));
            }
            self.probe_visions.push(probe_visions_new);
            self.probes_max_vis.push(best_visibility);
            proof {
                assert(self.probe_visions@[pidx]@ == pv_new);
                assert forall|p: int| 0 <= p < pidx + 1 implies pop_max_attained(
                    (#[trigger] self.probe_visions@[p])@,
                    self.probes_max_vis@[p] as int,
                ) by {
                    if p < pidx {
                        assert(self.probe_visions@[p] == pv_tables0[p]);
                        assert(self.probes_max_vis@[p] == mv0[p]);
                        assert(pop_max_attained(pv_tables0[p]@, mv0[p] as int));
                    } else {
                        assert(self.probe_visions@[p]@ == pv_new);
                    }
                }
                assert forall|c: int| 0 <= c < self.cells() implies (
                #[trigger] self.probe_visions@[pidx]@[c]) == self.vision_mask(
                    c % self.grid_w(),
                    c / self.grid_w(),
                    self.probes@[pidx] as int,
                ) by {
                    assert(self.probe_visions@[pidx]@[c] == pv_new[c]);
                }
                assert forall|c: int| 0 <= c < self.cells() implies pop64(
                    #[trigger] self.probe_visions@[pidx]@[c]) <= self.probes_max_vis@[pidx] by {
                    assert(self.probe_visions@[pidx]@[c] == pv_new[c]);
                }
            }
            probe_visibility_index = probe_visibility_index + 1;
        }
    }

    /// Radial horizon sweep: computes the visibility mask of a probe of range
    /// `visibility` placed at `(x, y)`, ORs it into `visited`, and returns the
    /// summed altitude of the cells that were newly marked.
    pub fn calculate_vision_score(&self, x: &i32, y: &i32, visited: &mut u64, visibility: i32) -> (r: i64)
        requires
            self.grid_wf(),
            self.in_grid(*x as int, *y as int),
            visibility >= 1,
        ensures
            *final(visited) == *old(visited) | self.vision_mask(
                *x as int,
                *y as int,
                visibility as int,
            ),
            r == self.alt_sum(*final(visited)) - self.alt_sum(*old(visited)),
    {
        let ghost orig: u64 = *visited;
        let ghost ox: int = *x as int;
        let ghost oy: int = *y as int;
        let ghost rr: int = visibility as int;
        proof {
            lemma_dims(self.grid_w(), self.grid_h());
        }
        let probe_altitude = self.board[*y as usize][*x as usize];
        let mut sum: i64 = 0;
        if !self.is_occupied(*x, *y, visited) {
            proof {
                lemma_cell_index_bounds(ox, oy, self.grid_w(), self.grid_h());
                lemma_idx_coords(ox, oy, self.grid_w(), self.grid_h());
                self.lemma_alt_sum_set_bit(*visited, self.idx_of(ox, oy));
                self.lemma_alt_sum_bound(*visited, 64);
            }
            sum += probe_altitude as i64;
            self.mark_occupied(*x, *y, visited);
        } else {
            proof {
                lemma_cell_index_bounds(ox, oy, self.grid_w(), self.grid_h());
                lemma_or_absorb_bit(*visited, self.idx_of(ox, oy));
            }
            self.mark_occupied(*x, *y, visited);
        }
        let mut du: usize = 0;
        while du < 8
            invariant
                self.grid_wf(),
                self.in_grid(ox, oy),
                ox == *x as int,
                oy == *y as int,
                rr == visibility as int,
                visibility >= 1,
                self.grid_w() <= 64,
                self.grid_h() <= 64,
                du <= 8,
                probe_altitude == self.alt_at(ox, oy),
                *visited == orig | self.dirs_mask(ox, oy, rr, du as int),
                sum == self.alt_sum(*visited) - self.alt_sum(orig),
            decreases 8 - du,
        {
            let (sx, sy) = dir_step(du);
            proof {
                lemma_or_zero(orig | self.dirs_mask(ox, oy, rr, du as int));
            }
            let mut new_x = *x;
            let mut new_y = *y;
            let mut k: i32 = 0;
            let mut best_delta: i64 = 0;
            let mut best_k: i32 = 0;
            loop
                invariant_except_break
                    self.grid_wf(),
                    self.in_grid(ox, oy),
                    ox == *x as int,
                    oy == *y as int,
                    rr == visibility as int,
                    visibility >= 1,
                    self.grid_w() <= 64,
                    self.grid_h() <= 64,
                    du < 8,
                    sx == dir_dx(du as int),
                    sy == dir_dy(du as int),
                    probe_altitude == self.alt_at(ox, oy),
                    0 <= k <= 63,
                    new_x as int == ox + k * dir_dx(du as int),
                    new_y as int == oy + k * dir_dy(du as int),
                    forall|j: int|
                        1 <= j <= k ==> (#[trigger] self.in_grid(
                            ox + j * dir_dx(du as int),
                            oy + j * dir_dy(du as int),
                        ) && j * j * (dir_dx(du as int) * dir_dx(du as int) + dir_dy(du as int)
                            * dir_dy(du as int)) <= rr * rr),
                    *visited == orig | self.dirs_mask(ox, oy, rr, du as int)
                        | self.ray_mask_upto(ox, oy, du as int, rr, k as int),
                    sum == self.alt_sum(*visited) - self.alt_sum(orig),
                    best_k == 0 ==> k == 0 && best_delta == 0,
                    best_k != 0 ==> 1 <= best_k <= k && best_delta == self.ray_delta(
                        ox,
                        oy,
                        du as int,
                        best_k as int,
                    ),
                    forall|j: int|
                        1 <= j <= k ==> slope_le(
                            #[trigger] self.ray_delta(ox, oy, du as int, j),
                            j,
                            best_delta as int,
                            best_k as int,
                        ),
                ensures
                    *visited == orig | self.dirs_mask(ox, oy, rr, du as int)
                        | self.ray_mask_upto(ox, oy, du as int, rr, 63),
                    sum == self.alt_sum(*visited) - self.alt_sum(orig),
                decreases 64 - k,
            {
                proof {
                    lemma_mul_step(k as int, sx as int);
                    lemma_mul_step(k as int, sy as int);
                }
                k = k + 1;
                new_x = new_x + sx;
                new_y = new_y + sy;
                if !self.coord_is_viable(new_x, new_y) {
                    proof {
                        assert forall|j: int| (k - 1) < j <= 63 implies #[trigger] self.ray_bit(
                            ox,
                            oy,
                            du as int,
                            j,
                            rr,
                        ) == 0 by {
                            lemma_step_oob(
                                ox,
                                oy,
                                self.grid_w(),
                                self.grid_h(),
                                dir_dx(du as int),
                                dir_dy(du as int),
                                k as int,
                                j,
                            );
                        }
                        self.lemma_ray_mask_const(ox, oy, du as int, rr, k as int - 1, 63);
                    }
                    break;
                }
                proof {
                    lemma_step_bound(
                        ox,
                        oy,
                        self.grid_w(),
                        self.grid_h(),
                        dir_dx(du as int),
                        dir_dy(du as int),
                        k as int,
                    );
                }
                let ddx: i64 = (new_x - *x) as i64;
                let ddy: i64 = (new_y - *y) as i64;
                proof {
                    lemma_abs_mul_bound(ddx as int, ddx as int, 64, 64);
                    lemma_abs_mul_bound(ddy as int, ddy as int, 64, 64);
                    lemma_abs_mul_bound(visibility as int, visibility as int, 0x7fff_ffff, 0x7fff_ffff);
                }
                let dist2: i64 = ddx * ddx + ddy * ddy;
                let r2: i64 = (visibility as i64) * (visibility as i64);
                proof {
                    lemma_dist2_expand(k as int, sx as int, sy as int);
                    lemma_sq_nonneg(dir_dx(du as int));
                    lemma_sq_nonneg(dir_dy(du as int));
                    assert(ddx == k * dir_dx(du as int) && ddy == k * dir_dy(du as int));
                    assert(dist2 == k * k * (dir_dx(du as int) * dir_dx(du as int) + dir_dy(
                        du as int,
                    ) * dir_dy(du as int)));
                }
                if dist2 > r2 {
                    proof {
                        let c2 = dir_dx(du as int) * dir_dx(du as int) + dir_dy(du as int)
                            * dir_dy(du as int);
                        assert forall|j: int| (k - 1) < j <= 63 implies #[trigger] self.ray_bit(
                            ox,
                            oy,
                            du as int,
                            j,
                            rr,
                        ) == 0 by {
                            lemma_step_far(k as int, j, c2, rr * rr);
                        }
                        self.lemma_ray_mask_const(ox, oy, du as int, rr, k as int - 1, 63);
                    }
                    break;
                }
                proof {
                    assert(self.in_grid(ox + k * dir_dx(du as int), oy + k * dir_dy(du as int)));
                    assert(k * k * (dir_dx(du as int) * dir_dx(du as int) + dir_dy(du as int)
                        * dir_dy(du as int)) <= rr * rr);
                }
                let value_at_pos = self.board[new_y as usize][new_x as usize];
                let delta: i64 = value_at_pos as i64 - probe_altitude as i64;
                proof {
                    assert(delta == self.ray_delta(ox, oy, du as int, k as int));
                    lemma_abs_mul_bound(delta as int, best_k as int, 0x1_0000_0000, 64);
                    lemma_abs_mul_bound(best_delta as int, k as int, 0x1_0000_0000, 64);
                }
                if best_k > 0 && delta * (best_k as i64) < best_delta * (k as i64) {
                    // occluded: the cell stays unmarked, the ray walks on
                    proof {
                        assert(!slope_le(
                            self.ray_delta(ox, oy, du as int, best_k as int),
                            best_k as int,
                            self.ray_delta(ox, oy, du as int, k as int),
                            k as int,
                        ));
                        assert(!self.ray_cell_seen(ox, oy, du as int, k as int, rr));
                        lemma_or_zero(
                            orig | self.dirs_mask(ox, oy, rr, du as int) | self.ray_mask_upto(
                                ox,
                                oy,
                                du as int,
                                rr,
                                k as int - 1,
                            ),
                        );
                        lemma_or_assoc(
                            orig | self.dirs_mask(ox, oy, rr, du as int),
                            self.ray_mask_upto(ox, oy, du as int, rr, k as int - 1),
                            0,
                        );
                        lemma_or_zero(self.ray_mask_upto(ox, oy, du as int, rr, k as int - 1));
                    }
                } else {
                proof {
                    assert forall|j: int| 1 <= j < k implies slope_le(
                        #[trigger] self.ray_delta(ox, oy, du as int, j),
                        j,
                        self.ray_delta(ox, oy, du as int, k as int),
                        k as int,
                    ) by {
                        lemma_slope_trans(
                            self.ray_delta(ox, oy, du as int, j),
                            j,
                            best_delta as int,
                            best_k as int,
                            self.ray_delta(ox, oy, du as int, k as int),
                            k as int,
                        );
                    }
                    assert(self.ray_cell_seen(ox, oy, du as int, k as int, rr));
                    lemma_cell_index_bounds(new_x as int, new_y as int, self.grid_w(), self.grid_h());
                    lemma_idx_coords(new_x as int, new_y as int, self.grid_w(), self.grid_h());
                }
                best_delta = delta;
                best_k = k;
                let ghost prev: u64 = *visited;
                let ghost idx: int = self.idx_of(new_x as int, new_y as int);
                if !self.is_occupied(new_x, new_y, visited) {
                    proof {
                        self.lemma_alt_sum_set_bit(*visited, idx);
                        self.lemma_alt_sum_bound(*visited, 64);
                        self.lemma_alt_sum_bound(orig, 64);
                    }
                    sum += value_at_pos as i64;
                    self.mark_occupied(new_x, new_y, visited);
                } else {
                    proof {
                        lemma_or_absorb_bit(*visited, idx);
                    }
                    self.mark_occupied(new_x, new_y, visited);
                }
                proof {
                    lemma_or_assoc(
                        orig | self.dirs_mask(ox, oy, rr, du as int),
                        self.ray_mask_upto(ox, oy, du as int, rr, k as int - 1),
                        self.ray_bit(ox, oy, du as int, k as int, rr),
                    );
                }
                }
            }
            proof {
                lemma_or_assoc(
                    orig,
                    self.dirs_mask(ox, oy, rr, du as int),
                    self.ray_mask_upto(ox, oy, du as int, rr, 63),
                );
            }
            du = du + 1;
        }
        sum
    }
}

} // verus!
