//! The library's general laws, each proved once and for all: the range
//! cutoff of the visibility sweep, visibility along occlusion-free rays,
//! determinism of the table construction, and the solver's dominance over
//! every single-probe placement.

use vstd::prelude::*;

use crate::agent::{
    dir_dx, dir_dy, idx_g, in_grid_g, lemma_cell_index_bounds, lemma_dims, lemma_dist2_expand,
    lemma_idx_coords, lemma_sq_nonneg, lemma_step_bound, pop_max_attained, ray_cell_seen_g,
    ray_delta_g, ray_mask_upto_g, slope_le, vision_mask_g, Agent,
};
use crate::bits::{
    bit64, bits_below, lemma_bit_or, lemma_bit_single, lemma_bits_below_zero, lemma_pop_eq_below,
    lemma_popn_le, lemma_popn_or_ge, lemma_popn_set_bit, lemma_popn_unset_exists,
    lemma_popn_zero_val, pop64,
};
use crate::outcome::{lemma_join_cases, lemma_rank_trans, rank_le};

verus! {

/// A set bit of a ray mask names a cell actually observed along that ray.
proof fn lemma_ray_mask_bit_onto(
    b: Seq<Vec<i32>>,
    w: int,
    h: int,
    ox: int,
    oy: int,
    d: int,
    r: int,
    kmax: int,
    i: int,
)
    requires
        1 <= w,
        1 <= h,
        w * h <= 64,
        0 <= i < 64,
        bit64(ray_mask_upto_g(b, w, h, ox, oy, d, r, kmax), i),
    ensures
        exists|kk: int|
            1 <= kk <= kmax && #[trigger] ray_cell_seen_g(b, w, h, ox, oy, d, kk, r) && i == idx_g(
                w,
                ox + kk * dir_dx(d),
                oy + kk * dir_dy(d),
            ),
    decreases kmax,
{
    let iu = i as u64;
    if kmax <= 0 {
        assert(iu < 64 ==> (0u64 >> iu) & 1 != 1) by (bit_vector);
    } else {
        let prev = ray_mask_upto_g(b, w, h, ox, oy, d, r, kmax - 1);
        let rb = crate::agent::ray_bit_g(b, w, h, ox, oy, d, kmax, r);
        lemma_bit_or(prev, rb, i);
        if bit64(rb, i) {
            if ray_cell_seen_g(b, w, h, ox, oy, d, kmax, r) {
                let cx = ox + kmax * dir_dx(d);
                let cy = oy + kmax * dir_dy(d);
                lemma_cell_index_bounds(cx, cy, w, h);
                lemma_bit_single(idx_g(w, cx, cy), i);
                assert(ray_cell_seen_g(b, w, h, ox, oy, d, kmax, r) && i == idx_g(w, cx, cy));
            } else {
                assert(iu < 64 ==> (0u64 >> iu) & 1 != 1) by (bit_vector);
            }
        } else {
            lemma_ray_mask_bit_onto(b, w, h, ox, oy, d, r, kmax - 1, i);
        }
    }
}

/// A set bit of a visibility mask is the origin or a cell observed along one
/// of the first `d` rays.
proof fn lemma_dirs_mask_bit_onto(
    b: Seq<Vec<i32>>,
    w: int,
    h: int,
    ox: int,
    oy: int,
    r: int,
    d: int,
    i: int,
)
    requires
        1 <= w,
        1 <= h,
        w * h <= 64,
        in_grid_g(w, h, ox, oy),
        0 <= i < 64,
        bit64(crate::agent::dirs_mask_g(b, w, h, ox, oy, r, d), i),
    ensures
        i == idx_g(w, ox, oy) || exists|dd: int, kk: int|
            0 <= dd < d && 1 <= kk && #[trigger] ray_cell_seen_g(b, w, h, ox, oy, dd, kk, r) && i
                == idx_g(w, ox + kk * dir_dx(dd), oy + kk * dir_dy(dd)),
    decreases d,
{
    if d <= 0 {
        lemma_cell_index_bounds(ox, oy, w, h);
        lemma_bit_single(idx_g(w, ox, oy), i);
    } else {
        let prev = crate::agent::dirs_mask_g(b, w, h, ox, oy, r, d - 1);
        let rm = ray_mask_upto_g(b, w, h, ox, oy, d - 1, r, 63);
        lemma_bit_or(prev, rm, i);
        if bit64(rm, i) {
            lemma_ray_mask_bit_onto(b, w, h, ox, oy, d - 1, r, 63, i);
            let kk = choose|kk: int|
                1 <= kk <= 63 && #[trigger] ray_cell_seen_g(b, w, h, ox, oy, d - 1, kk, r) && i
                    == idx_g(w, ox + kk * dir_dx(d - 1), oy + kk * dir_dy(d - 1));
            assert(0 <= d - 1 < d && 1 <= kk && ray_cell_seen_g(b, w, h, ox, oy, d - 1, kk, r) && i
                == idx_g(w, ox + kk * dir_dx(d - 1), oy + kk * dir_dy(d - 1)));
        } else {
            lemma_dirs_mask_bit_onto(b, w, h, ox, oy, r, d - 1, i);
        }
    }
}

/// Distance cutoff: no cell farther than range `r` from the origin is ever
/// marked visible by the sweep.
pub proof fn lemma_visibility_within_range(a: Agent, ox: int, oy: int, r: int, x: int, y: int)
    requires
        a.grid_wf(),
        a.in_grid(ox, oy),
        a.in_grid(x, y),
        bit64(a.vision_mask(ox, oy, r), a.idx_of(x, y)),
        !(x == ox && y == oy),
    ensures
        (x - ox) * (x - ox) + (y - oy) * (y - oy) <= r * r,
{
    let w = a.grid_w();
    let h = a.grid_h();
    let b = a.board@;
    let i = idx_g(w, x, y);
    lemma_cell_index_bounds(x, y, w, h);
    lemma_idx_coords(x, y, w, h);
    lemma_dirs_mask_bit_onto(b, w, h, ox, oy, r, 8, i);
    if i == idx_g(w, ox, oy) {
        lemma_idx_coords(ox, oy, w, h);
        assert(false);
    }
    let (dd, kk) = choose|dd: int, kk: int|
        0 <= dd < 8 && 1 <= kk && #[trigger] ray_cell_seen_g(b, w, h, ox, oy, dd, kk, r) && i
            == idx_g(w, ox + kk * dir_dx(dd), oy + kk * dir_dy(dd));
    let cx = ox + kk * dir_dx(dd);
    let cy = oy + kk * dir_dy(dd);
    lemma_idx_coords(cx, cy, w, h);
    assert(x == cx && y == cy);
    lemma_dist2_expand(kk, dir_dx(dd), dir_dy(dd));
}

/// The cells of one ray stay in the grid up to any step that is in the grid.
proof fn lemma_ray_between(o: int, w: int, s: int, k: int, t: int)
    by (nonlinear_arith)
    requires
        0 <= o < w,
        -1 <= s <= 1,
        0 <= k <= t,
        0 <= o + t * s < w,
    ensures
        0 <= o + k * s < w,
{
}

/// The distance along a ray grows with the step count.
proof fn lemma_dist_mono(k: int, t: int, c2: int)
    by (nonlinear_arith)
    requires
        0 <= k <= t,
        c2 >= 0,
    ensures
        k * k * c2 <= t * t * c2,
{
}

/// A cell observed along ray `d` at step `kk <= 63` has its bit in the mask.
proof fn lemma_ray_mask_bit_into(
    b: Seq<Vec<i32>>,
    w: int,
    h: int,
    ox: int,
    oy: int,
    d: int,
    r: int,
    kmax: int,
    kk: int,
)
    requires
        1 <= w,
        1 <= h,
        w * h <= 64,
        1 <= kk <= kmax,
        ray_cell_seen_g(b, w, h, ox, oy, d, kk, r),
    ensures
        bit64(
            ray_mask_upto_g(b, w, h, ox, oy, d, r, kmax),
            idx_g(w, ox + kk * dir_dx(d), oy + kk * dir_dy(d)),
        ),
    decreases kmax,
{
    let i = idx_g(w, ox + kk * dir_dx(d), oy + kk * dir_dy(d));
    lemma_cell_index_bounds(ox + kk * dir_dx(d), oy + kk * dir_dy(d), w, h);
    let prev = ray_mask_upto_g(b, w, h, ox, oy, d, r, kmax - 1);
    let rb = crate::agent::ray_bit_g(b, w, h, ox, oy, d, kmax, r);
    lemma_bit_or(prev, rb, i);
    if kk == kmax {
        lemma_bit_single(i, i);
    } else {
        lemma_ray_mask_bit_into(b, w, h, ox, oy, d, r, kmax - 1, kk);
    }
}

/// An observed ray cell's bit survives into the full visibility mask.
proof fn lemma_dirs_mask_bit_into(
    b: Seq<Vec<i32>>,
    w: int,
    h: int,
    ox: int,
    oy: int,
    r: int,
    dd: int,
    d: int,
    kk: int,
)
    requires
        1 <= w,
        1 <= h,
        w * h <= 64,
        0 <= dd < d,
        1 <= kk <= 63,
        ray_cell_seen_g(b, w, h, ox, oy, dd, kk, r),
    ensures
        bit64(
            crate::agent::dirs_mask_g(b, w, h, ox, oy, r, d),
            idx_g(w, ox + kk * dir_dx(dd), oy + kk * dir_dy(dd)),
        ),
    decreases d,
{
    let i = idx_g(w, ox + kk * dir_dx(dd), oy + kk * dir_dy(dd));
    lemma_cell_index_bounds(ox + kk * dir_dx(dd), oy + kk * dir_dy(dd), w, h);
    let prev = crate::agent::dirs_mask_g(b, w, h, ox, oy, r, d - 1);
    let rm = ray_mask_upto_g(b, w, h, ox, oy, d - 1, r, 63);
    lemma_bit_or(prev, rm, i);
    if dd == d - 1 {
        lemma_ray_mask_bit_into(b, w, h, ox, oy, dd, r, 63, kk);
    } else {
        lemma_dirs_mask_bit_into(b, w, h, ox, oy, r, dd, d - 1, kk);
    }
}

/// Occlusion-free rays: along a ray whose line-of-sight slopes never
/// decrease, every cell within range and within the grid is visible.  (A
/// merely increasing altitude profile is not enough: the first cell can
/// still occlude later ones when its slope is the largest.)
pub proof fn lemma_monotone_ray_visible(a: Agent, ox: int, oy: int, d: int, r: int, t: int)
    requires
        a.grid_wf(),
        a.in_grid(ox, oy),
        0 <= d < 8,
        1 <= t,
        a.in_grid(ox + t * dir_dx(d), oy + t * dir_dy(d)),
        t * t * (dir_dx(d) * dir_dx(d) + dir_dy(d) * dir_dy(d)) <= r * r,
        forall|j1: int, j2: int|
            1 <= j1 <= j2 <= t ==> slope_le(
                #[trigger] ray_delta_g(a.board@, ox, oy, d, j1),
                j1,
                #[trigger] ray_delta_g(a.board@, ox, oy, d, j2),
                j2,
            ),
    ensures
        forall|kk: int|
            1 <= kk <= t ==> bit64(
                a.vision_mask(ox, oy, r),
                #[trigger] idx_g(a.grid_w(), ox + kk * dir_dx(d), oy + kk * dir_dy(d)),
            ),
{
    let w = a.grid_w();
    let h = a.grid_h();
    let b = a.board@;
    let c2 = dir_dx(d) * dir_dx(d) + dir_dy(d) * dir_dy(d);
    lemma_dims(w, h);
    lemma_sq_nonneg(dir_dx(d));
    lemma_sq_nonneg(dir_dy(d));
    assert forall|kk: int| 1 <= kk <= t implies bit64(
        a.vision_mask(ox, oy, r),
        #[trigger] idx_g(w, ox + kk * dir_dx(d), oy + kk * dir_dy(d)),
    ) by {
        lemma_ray_between(ox, w, dir_dx(d), kk, t);
        lemma_ray_between(oy, h, dir_dy(d), kk, t);
        lemma_dist_mono(kk, t, c2);
        assert(ray_cell_seen_g(b, w, h, ox, oy, d, kk, r));
        lemma_step_bound(ox, oy, w, h, dir_dx(d), dir_dy(d), kk);
        lemma_dirs_mask_bit_into(b, w, h, ox, oy, r, d, 8, kk);
    }
}

/// Idempotence of the table construction: two analyzed agents over the same
/// grid and the same multiset of probes have identical probe lists,
/// visibility tables and per-probe maxima.
pub proof fn lemma_table_construction_deterministic(a1: Agent, a2: Agent)
    requires
        a1.wf(),
        a2.wf(),
        a1.board@ == a2.board@,
        a1.board_width == a2.board_width,
        a1.board_height == a2.board_height,
        a1.probes@.to_multiset() == a2.probes@.to_multiset(),
    ensures
        a1.probes@ == a2.probes@,
        a1.probe_visions@.len() == a2.probe_visions@.len(),
        forall|p: int|
            0 <= p < a1.probe_visions@.len() ==> (#[trigger] a1.probe_visions@[p])@ == (
            a2.probe_visions@[p])@,
        a1.probes_max_vis@ == a2.probes_max_vis@,
{
    let geq = |x: i32, y: i32| x >= y;
    assert(vstd::relations::total_ordering(geq));
    assert(vstd::relations::sorted_by(a1.probes@, geq));
    assert(vstd::relations::sorted_by(a2.probes@, geq));
    vstd::seq_lib::lemma_sorted_unique(a1.probes@, a2.probes@, geq);
    assert(a1.probes@ =~= a2.probes@);
    let n = a1.probes@.len() as int;
    assert forall|p: int| 0 <= p < n implies (#[trigger] a1.probe_visions@[p])@ == (
    a2.probe_visions@[p])@ by {
        assert forall|c: int| 0 <= c < a1.cells() implies a1.probe_visions@[p]@[c]
            == a2.probe_visions@[p]@[c] by {
            assert(a1.probe_visions@[p]@[c] == vision_mask_g(
                a1.board@,
                a1.grid_w(),
                a1.grid_h(),
                c % a1.grid_w(),
                c / a1.grid_w(),
                a1.probes@[p] as int,
            ));
            assert(a2.probe_visions@[p]@[c] == vision_mask_g(
                a2.board@,
                a2.grid_w(),
                a2.grid_h(),
                c % a2.grid_w(),
                c / a2.grid_w(),
                a2.probes@[p] as int,
            ));
        }
        assert(a1.probe_visions@[p]@ =~= a2.probe_visions@[p]@);
    }
    assert forall|p: int| 0 <= p < n implies a1.probes_max_vis@[p] == a2.probes_max_vis@[p] by {
        assert(pop_max_attained(a1.probe_visions@[p]@, a1.probes_max_vis@[p] as int));
        assert(pop_max_attained(a2.probe_visions@[p]@, a2.probes_max_vis@[p] as int));
        let c1 = choose|c: int|
            0 <= c < a1.probe_visions@[p]@.len() && pop64(#[trigger] a1.probe_visions@[p]@[c])
                == a1.probes_max_vis@[p];
        let c2 = choose|c: int|
            0 <= c < a2.probe_visions@[p]@.len() && pop64(#[trigger] a2.probe_visions@[p]@[c])
                == a2.probes_max_vis@[p];
        assert(a1.probe_visions@[p]@ == a2.probe_visions@[p]@);
        assert(a1.probes_max_vis@[p] <= a2.probes_max_vis@[p]);
        assert(a2.probes_max_vis@[p] <= a1.probes_max_vis@[p]);
    }
    assert(a1.probes_max_vis@ =~= a2.probes_max_vis@);
}

/// However many probes are placed, the observed-cell count never exceeds
/// the number of grid cells.
pub proof fn lemma_peaks_within_grid(a: Agent, o: u64, v: u64, k: int)
    requires
        a.wf(),
        0 <= k,
        bits_below(v, a.cells()),
    ensures
        a.opt_from(o, v, k).visited_peaks <= a.cells(),
    decreases a.probes@.len() - k + 1, 0int,
{
    let n = a.probes@.len() as int;
    if k >= n {
        lemma_pop_eq_below(v, a.cells() as nat, 64);
        lemma_popn_le(v, a.cells() as nat);
    } else {
        lemma_peaks_within_grid_cells(a, o, v, k, 0);
    }
}

proof fn lemma_peaks_within_grid_cells(a: Agent, o: u64, v: u64, k: int, c: int)
    requires
        a.wf(),
        0 <= k < a.probes@.len(),
        bits_below(v, a.cells()),
    ensures
        a.opt_cells(o, v, k, c).visited_peaks <= a.cells(),
    decreases a.probes@.len() - k, a.cells() - c,
{
    if c < 0 || c >= a.cells() || k >= a.probes@.len() {
    } else if bit64(o, c) {
        lemma_peaks_within_grid_cells(a, o, v, k, c + 1);
    } else {
        lemma_peaks_within_grid_cells(a, o, v, k, c + 1);
        crate::agent::lemma_index_decompose(c, a.grid_w(), a.grid_h());
        a.lemma_vision_mask_bits_below(c % a.grid_w(), c / a.grid_w(), a.probes@[k] as int);
        crate::bits::lemma_bits_below_or(v, a.place_mask(k, c), a.cells());
        lemma_peaks_within_grid(a, o | (1u64 << (c as u64)), v | a.place_mask(k, c), k + 1);
        lemma_join_cases(
            a.opt_from(o | (1u64 << (c as u64)), v | a.place_mask(k, c), k + 1),
            a.opt_cells(o, v, k, c + 1),
        );
    }
}

/// Any placement of probe `k` on the free cell `c` is covered by the fold
/// over all cells from `c0` on.
proof fn lemma_opt_cells_ge_cand(a: Agent, o: u64, v: u64, k: int, c0: int, c: int)
    requires
        a.wf(),
        0 <= k < a.probes@.len(),
        0 <= c0 <= c < a.cells(),
        !bit64(o, c),
    ensures
        rank_le(
            a.opt_from(o | (1u64 << (c as u64)), v | a.place_mask(k, c), k + 1),
            a.opt_cells(o, v, k, c0),
        ),
    decreases c - c0,
{
    let cand = a.opt_from(o | (1u64 << (c as u64)), v | a.place_mask(k, c), k + 1);
    if c0 == c {
        lemma_join_cases(cand, a.opt_cells(o, v, k, c0 + 1));
    } else {
        lemma_opt_cells_ge_cand(a, o, v, k, c0 + 1, c);
        if bit64(o, c0) {
        } else {
            let first = a.opt_from(o | (1u64 << (c0 as u64)), v | a.place_mask(k, c0), k + 1);
            lemma_join_cases(first, a.opt_cells(o, v, k, c0 + 1));
            lemma_rank_trans(cand, a.opt_cells(o, v, k, c0 + 1), a.opt_cells(o, v, k, c0));
        }
    }
}

/// The optimum observes at least the cells already observed.
proof fn lemma_opt_ge_pop(a: Agent, o: u64, v: u64, k: int)
    requires
        a.wf(),
        0 <= k <= a.probes@.len(),
        a.probes@.len() <= a.cells(),
        pop64(o) == k,
        bits_below(o, a.cells()),
    ensures
        a.opt_from(o, v, k).visited_peaks >= pop64(v),
    decreases a.probes@.len() - k,
{
    let n = a.probes@.len() as int;
    lemma_popn_le(v, 64);
    if k < n {
        lemma_pop_eq_below(o, a.cells() as nat, 64);
        lemma_popn_unset_exists(o, a.cells() as nat);
        let c = choose|i: int| 0 <= i < a.cells() && !(#[trigger] bit64(o, i));
        let o2 = o | (1u64 << (c as u64));
        let v2 = v | a.place_mask(k, c);
        lemma_popn_set_bit(o, c, 64);
        crate::bits::lemma_bits_below_single(c, a.cells());
        crate::bits::lemma_bits_below_or(o, 1u64 << (c as u64), a.cells());
        lemma_opt_ge_pop(a, o2, v2, k + 1);
        lemma_popn_or_ge(v, a.place_mask(k, c), 64);
        lemma_opt_cells_ge_cand(a, o, v, k, 0, c);
    }
}

/// Some completion places probe `i` on cell `c`, so the optimum observes at
/// least everything that single placement observes.
proof fn lemma_opt_reaches(a: Agent, o: u64, v: u64, k: int, i: int, c: int)
    requires
        a.wf(),
        0 <= k <= i < a.probes@.len(),
        a.probes@.len() <= a.cells(),
        pop64(o) == k,
        bits_below(o, a.cells()),
        0 <= c < a.cells(),
        !bit64(o, c),
    ensures
        a.opt_from(o, v, k).visited_peaks >= pop64(a.place_mask(i, c)),
    decreases i - k,
{
    let n = a.probes@.len() as int;
    if k == i {
        let o2 = o | (1u64 << (c as u64));
        let v2 = v | a.place_mask(i, c);
        lemma_popn_set_bit(o, c, 64);
        crate::bits::lemma_bits_below_single(c, a.cells());
        crate::bits::lemma_bits_below_or(o, 1u64 << (c as u64), a.cells());
        lemma_opt_ge_pop(a, o2, v2, k + 1);
        lemma_popn_or_ge(v, a.place_mask(i, c), 64);
        lemma_opt_cells_ge_cand(a, o, v, k, 0, c);
    } else {
        let o1 = o | (1u64 << (c as u64));
        lemma_popn_set_bit(o, c, 64);
        crate::bits::lemma_bits_below_single(c, a.cells());
        crate::bits::lemma_bits_below_or(o, 1u64 << (c as u64), a.cells());
        lemma_pop_eq_below(o1, a.cells() as nat, 64);
        lemma_popn_unset_exists(o1, a.cells() as nat);
        let c2 = choose|j: int| 0 <= j < a.cells() && !(#[trigger] bit64(o1, j));
        lemma_bit_or(o, 1u64 << (c as u64), c2);
        lemma_bit_single(c, c2);
        assert(c2 != c && !bit64(o, c2));
        let o2 = o | (1u64 << (c2 as u64));
        let v2 = v | a.place_mask(k, c2);
        lemma_popn_set_bit(o, c2, 64);
        crate::bits::lemma_bits_below_single(c2, a.cells());
        crate::bits::lemma_bits_below_or(o, 1u64 << (c2 as u64), a.cells());
        lemma_bit_or(o, 1u64 << (c2 as u64), c);
        lemma_bit_single(c2, c);
        lemma_opt_reaches(a, o2, v2, k + 1, i, c);
        lemma_opt_cells_ge_cand(a, o, v, k, 0, c2);
    }
}

/// The solver's observed-cell count is at least that of any single probe on
/// any single cell: `dfs` returns `opt_from(0, 0, 0)`, and that optimum
/// dominates every single-probe placement.  (This needs at least as many
/// cells as probes; with more probes than cells no full placement exists.)
pub proof fn lemma_solver_dominates_single_probe(a: Agent, i: int, c: int)
    requires
        a.wf(),
        a.probes@.len() <= a.cells(),
        0 <= i < a.probes@.len(),
        0 <= c < a.cells(),
    ensures
        a.opt_from(0, 0, 0).visited_peaks >= pop64(a.probe_visions@[i]@[c]),
{
    lemma_popn_zero_val(64);
    lemma_bits_below_zero(a.cells());
    let cu = c as u64;
    assert(cu < 64 ==> (0u64 >> cu) & 1 != 1) by (bit_vector);
    lemma_opt_reaches(a, 0, 0, 0, i, c);
}

} // verus!
