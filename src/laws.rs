//! Properties of whole runs.
use vstd::prelude::*;
use crate::grid::{
    cell_index, valid_reso, seeds_in_grid, grid_wf, lemma_cell_in_grid, lemma_cell_coords,
};
use crate::kernel::{
    sq_dist, label_dist, offset_dx, offset_dy, neighbor_label, best_of, jfa_pass, lemma_pass_wf,
    lemma_cell_of_index,
};
use crate::run::{run_passes, jfa_labels, lemma_run_passes_wf};
use crate::seeds::{initial_grid, lemma_initial_wf, lemma_seeded_upto_home};
use crate::schedule::{step_schedule, halving_steps, first_step};

verus! {

proof fn lemma_sq_dist_nonneg(s: (u32, u32), x: int, y: int)
    ensures
        sq_dist(s, x, y) >= 0,
{
    let a = s.0 - x;
    let b = s.1 - y;
    assert(a * a + b * b >= 0) by (nonlinear_arith);
}

/// A cell that holds a seed lying on it keeps that label through the
/// candidates.
proof fn lemma_best_of_keeps_exact(
    g: Seq<u32>,
    seeds: Seq<(u32, u32)>,
    reso: nat,
    k: u32,
    x: int,
    y: int,
    j: nat,
)
    requires
        grid_wf(g, seeds, reso),
        0 <= x < reso,
        0 <= y < reso,
        g[cell_index(reso, x, y)] != 0,
        label_dist(seeds, g[cell_index(reso, x, y)], x, y) == 0,
    ensures
        best_of(g, seeds, reso, k, x, y, j) == g[cell_index(reso, x, y)],
    decreases j,
{
    if j > 0 {
        lemma_best_of_keeps_exact(g, seeds, reso, k, x, y, (j - 1) as nat);
        let c = neighbor_label(g, reso, k, x, y, j - 1);
        lemma_sq_dist_nonneg(seeds[c - 1], x, y);
    }
}

/// A pass keeps the label of a cell that holds the seed lying on it.
proof fn lemma_pass_keeps_exact(g: Seq<u32>, seeds: Seq<(u32, u32)>, reso: nat, k: u32, i: int)
    requires
        grid_wf(g, seeds, reso),
        0 <= i < seeds.len(),
        g[cell_index(reso, seeds[i].0 as int, seeds[i].1 as int)] == i + 1,
    ensures
        jfa_pass(g, seeds, reso, k)[cell_index(reso, seeds[i].0 as int, seeds[i].1 as int)] == i + 1,
{
    let s = seeds[i];
    let (x, y) = (s.0 as int, s.1 as int);
    lemma_cell_in_grid(reso, x, y);
    lemma_cell_coords(reso, x, y);
    assert(s.0 < reso && s.1 < reso);
    assert(((i + 1) as u32) - 1 == i);
    assert(seeds[((i + 1) as u32) - 1] == s);
    assert(label_dist(seeds, (i + 1) as u32, x, y) == 0);
    lemma_best_of_keeps_exact(g, seeds, reso, k, x, y, 8);
}

/// After any passes, every label of a well-formed grid is 0 or names one of
/// the seeds, and the grid keeps one label per cell.
pub proof fn lemma_labels_in_range(g: Seq<u32>, seeds: Seq<(u32, u32)>, reso: nat, steps: Seq<u32>)
    requires
        grid_wf(g, seeds, reso),
    ensures
        run_passes(g, seeds, reso, steps).len() == reso * reso,
        forall|c: int|
            0 <= c < reso * reso ==> #[trigger] run_passes(g, seeds, reso, steps)[c] <= seeds.len(),
{
    lemma_run_passes_wf(g, seeds, reso, steps);
}

/// The final labels of a run are all 0 or the index of a seed.
pub proof fn lemma_final_labels_in_range(seeds: Seq<(u32, u32)>, reso: nat)
    requires
        valid_reso(reso),
        seeds_in_grid(seeds, reso),
        seeds.len() <= u32::MAX,
    ensures
        jfa_labels(seeds, reso).len() == reso * reso,
        forall|c: int| 0 <= c < reso * reso ==> #[trigger] jfa_labels(seeds, reso)[c] <= seeds.len(),
{
    lemma_initial_wf(seeds, reso);
    lemma_labels_in_range(initial_grid(seeds, reso), seeds, reso, step_schedule(reso));
}

/// A seed that no later seed shares a cell with labels its own cell with its
/// 1-based index from the start, and after any passes still does.
pub proof fn lemma_seed_keeps_home(seeds: Seq<(u32, u32)>, reso: nat, i: int, steps: Seq<u32>)
    requires
        valid_reso(reso),
        seeds_in_grid(seeds, reso),
        seeds.len() <= u32::MAX,
        0 <= i < seeds.len(),
        forall|j: int| i < j < seeds.len() ==> #[trigger] seeds[j] != seeds[i],
    ensures
        initial_grid(seeds, reso)[cell_index(reso, seeds[i].0 as int, seeds[i].1 as int)] == i + 1,
        run_passes(initial_grid(seeds, reso), seeds, reso, steps)[cell_index(
            reso,
            seeds[i].0 as int,
            seeds[i].1 as int,
        )] == i + 1,
    decreases steps.len(),
{
    lemma_seeded_upto_home(seeds, reso, i, seeds.len());
    lemma_initial_wf(seeds, reso);
    if steps.len() > 0 {
        lemma_seed_keeps_home(seeds, reso, i, steps.drop_last());
        let g = run_passes(initial_grid(seeds, reso), seeds, reso, steps.drop_last());
        lemma_run_passes_wf(initial_grid(seeds, reso), seeds, reso, steps.drop_last());
        lemma_pass_keeps_exact(g, seeds, reso, steps.last(), i);
    }
}

/// The final labels are a function of the seeds and the side length: two
/// runs on the same input agree cell for cell.
pub proof fn lemma_runs_agree(seeds: Seq<(u32, u32)>, reso: nat, first: Seq<u32>, second: Seq<u32>)
    requires
        first == jfa_labels(seeds, reso),
        second == jfa_labels(seeds, reso),
    ensures
        first == second,
        forall|c: int| 0 <= c < first.len() ==> #[trigger] first[c] == second[c],
{
}

/// `n` is a power of two.
pub open spec fn is_pow2(n: nat) -> bool
    decreases n,
{
    if n <= 1 {
        n == 1
    } else {
        n % 2 == 0 && is_pow2(n / 2)
    }
}

/// Every cell whose column and row differ from `(sx, sy)` by multiples of
/// `p` is labelled.
pub open spec fn covered(g: Seq<u32>, reso: nat, sx: int, sy: int, p: int) -> bool {
    forall|x: int, y: int|
        0 <= x < reso && 0 <= y < reso && (x - sx) % p == 0 && (y - sy) % p == 0
            ==> #[trigger] g[cell_index(reso, x, y)] != 0
}

proof fn lemma_best_stays_nonzero(
    g: Seq<u32>,
    seeds: Seq<(u32, u32)>,
    reso: nat,
    k: u32,
    x: int,
    y: int,
    j1: nat,
    j2: nat,
)
    requires
        j1 <= j2,
        best_of(g, seeds, reso, k, x, y, j1) != 0,
    ensures
        best_of(g, seeds, reso, k, x, y, j2) != 0,
    decreases j2,
{
    if j2 > j1 {
        lemma_best_stays_nonzero(g, seeds, reso, k, x, y, j1, (j2 - 1) as nat);
    }
}

/// A pass labels a cell whose own label or whose neighbour `j` is non-zero.
proof fn lemma_relabel_nonzero(g: Seq<u32>, seeds: Seq<(u32, u32)>, reso: nat, k: u32, x: int, y: int, j: int)
    requires
        0 <= j < 8,
        g[cell_index(reso, x, y)] != 0 || neighbor_label(g, reso, k, x, y, j) != 0,
    ensures
        best_of(g, seeds, reso, k, x, y, 8) != 0,
{
    if g[cell_index(reso, x, y)] != 0 {
        lemma_best_stays_nonzero(g, seeds, reso, k, x, y, 0, 8);
    } else {
        assert(best_of(g, seeds, reso, k, x, y, (j + 1) as nat) != 0);
        lemma_best_stays_nonzero(g, seeds, reso, k, x, y, (j + 1) as nat, 8);
    }
}

/// The label a pass gives cell `(x, y)`.
proof fn lemma_pass_at(g: Seq<u32>, seeds: Seq<(u32, u32)>, reso: nat, k: u32, x: int, y: int)
    requires
        grid_wf(g, seeds, reso),
        0 <= x < reso,
        0 <= y < reso,
    ensures
        0 <= cell_index(reso, x, y) < jfa_pass(g, seeds, reso, k).len(),
        jfa_pass(g, seeds, reso, k)[cell_index(reso, x, y)] == best_of(g, seeds, reso, k, x, y, 8),
{
    lemma_cell_in_grid(reso, x, y);
    lemma_cell_coords(reso, x, y);
}

/// A pass keeps every labelled cell labelled.
proof fn lemma_pass_keeps_covered(g: Seq<u32>, seeds: Seq<(u32, u32)>, reso: nat, k: u32, sx: int, sy: int, p: int)
    requires
        grid_wf(g, seeds, reso),
        covered(g, reso, sx, sy, p),
    ensures
        covered(jfa_pass(g, seeds, reso, k), reso, sx, sy, p),
{
    let r = jfa_pass(g, seeds, reso, k);
    assert forall|x: int, y: int|
        0 <= x < reso && 0 <= y < reso && (x - sx) % p == 0 && (y - sy) % p == 0 implies #[trigger] r[cell_index(reso, x, y)] != 0 by {
        assert(g[cell_index(reso, x, y)] != 0);
        lemma_pass_at(g, seeds, reso, k, x, y);
        lemma_relabel_nonzero(g, seeds, reso, k, x, y, 0);
    }
}

/// A coordinate `v` on the lattice of step `k` around `s` has a neighbour
/// `v + d * k` on the grid that lies on the lattice of step `2 * k`.
proof fn lemma_coarser_neighbor(v: int, s: int, k: int, reso: nat) -> (d: int)
    requires
        0 <= v < reso,
        1 <= k,
        2 * k <= reso,
        (v - s) % k == 0,
    ensures
        -1 <= d <= 1,
        0 <= v + d * k < reso,
        (v + d * k - s) % (2 * k) == 0,
{
    let m = 2 * k;
    let r = (v - s) % m;
    let q = (v - s) / m;
    vstd::arithmetic::div_mod::lemma_fundamental_div_mod(v - s, m);
    vstd::arithmetic::div_mod::lemma_mod_mod(v - s, k, 2);
    assert(k * 2 == m);
    assert(r % k == 0);
    vstd::arithmetic::div_mod::lemma_fundamental_div_mod(r, k);
    let t = r / k;
    assert(r == k * t);
    assert(r == 0 || r == k) by (nonlinear_arith)
        requires
            r == k * t,
            0 <= r < 2 * k,
            k >= 1,
    ;
    if r == 0 {
        assert(v + 0 * k == v);
        0
    } else if v >= k {
        assert(v - k - s == m * q);
        vstd::arithmetic::div_mod::lemma_mod_multiples_basic(q, m);
        assert(q * m == m * q) by (nonlinear_arith);
        assert(v + (-1) * k == v - k);
        -1
    } else {
        assert(v + k - s == m * (q + 1)) by (nonlinear_arith)
            requires
                v - s == m * q + k,
                m == 2 * k,
        ;
        vstd::arithmetic::div_mod::lemma_mod_multiples_basic(q + 1, m);
        assert((q + 1) * m == m * (q + 1)) by (nonlinear_arith);
        assert(v + 1 * k == v + k);
        1
    }
}

/// The position of offset `(dx, dy)` among the eight neighbours.
spec fn neighbor_slot(dx: int, dy: int) -> int {
    if dy == -1 {
        dx + 1
    } else if dy == 0 {
        if dx == -1 {
            3
        } else {
            4
        }
    } else {
        dx + 6
    }
}

/// A pass of step `k` fills the lattice of step `k` from that of step `2 * k`.
proof fn lemma_pass_refines(g: Seq<u32>, seeds: Seq<(u32, u32)>, reso: nat, k: u32, sx: int, sy: int)
    requires
        grid_wf(g, seeds, reso),
        1 <= k,
        2 * k <= reso,
        covered(g, reso, sx, sy, 2 * k),
    ensures
        covered(jfa_pass(g, seeds, reso, k), reso, sx, sy, k as int),
{
    let r = jfa_pass(g, seeds, reso, k);
    assert forall|x: int, y: int|
        0 <= x < reso && 0 <= y < reso && (x - sx) % (k as int) == 0 && (y - sy) % (k as int)
            == 0 implies #[trigger] r[cell_index(reso, x, y)] != 0 by {
        let dx = lemma_coarser_neighbor(x, sx, k as int, reso);
        let dy = lemma_coarser_neighbor(y, sy, k as int, reso);
        let nx = x + dx * k;
        let ny = y + dy * k;
        assert(g[cell_index(reso, nx, ny)] != 0);
        lemma_pass_at(g, seeds, reso, k, x, y);
        if dx == 0 && dy == 0 {
            assert(nx == x && ny == y);
            lemma_relabel_nonzero(g, seeds, reso, k, x, y, 0);
        } else {
            let j = neighbor_slot(dx, dy);
            assert(0 <= j < 8);
            assert(offset_dx(j) == dx && offset_dy(j) == dy);
            assert(neighbor_label(g, reso, k, x, y, j) == g[cell_index(reso, nx, ny)]);
            lemma_relabel_nonzero(g, seeds, reso, k, x, y, j);
        }
    }
}

/// Running a first pass, then the rest, is running them all.
proof fn lemma_run_passes_prepend(g: Seq<u32>, seeds: Seq<(u32, u32)>, reso: nat, k: u32, rest: Seq<u32>)
    ensures
        run_passes(g, seeds, reso, seq![k] + rest) == run_passes(jfa_pass(g, seeds, reso, k), seeds, reso, rest),
    decreases rest.len(),
{
    if rest.len() == 0 {
        assert((seq![k] + rest).drop_last() =~= Seq::<u32>::empty());
        assert(run_passes(g, seeds, reso, Seq::<u32>::empty()) == g);
    } else {
        lemma_run_passes_prepend(g, seeds, reso, k, rest.drop_last());
        assert((seq![k] + rest).drop_last() =~= seq![k] + rest.drop_last());
    }
}

/// The sweep `k, k/2, ..., 1` fills every cell of a lattice of step `2 * k`
/// out to the whole grid.
proof fn lemma_sweep_covers(g: Seq<u32>, seeds: Seq<(u32, u32)>, reso: nat, k: u32, sx: int, sy: int)
    requires
        grid_wf(g, seeds, reso),
        is_pow2(k as nat),
        2 * k <= reso,
        covered(g, reso, sx, sy, 2 * k),
    ensures
        covered(run_passes(g, seeds, reso, halving_steps(k)), reso, sx, sy, 1),
    decreases k,
{
    let g1 = jfa_pass(g, seeds, reso, k);
    lemma_pass_refines(g, seeds, reso, k, sx, sy);
    lemma_pass_wf(g, seeds, reso, k);
    lemma_run_passes_prepend(g, seeds, reso, k, halving_steps(k / 2));
    if k == 1 {
        assert(halving_steps(0) =~= Seq::<u32>::empty());
        assert(run_passes(g1, seeds, reso, Seq::<u32>::empty()) == g1);
    } else {
        assert(2 * (k / 2) == k);
        lemma_sweep_covers(g1, seeds, reso, k / 2, sx, sy);
    }
}

/// Two cells of the grid whose distance is a multiple of the side are one.
proof fn lemma_same_on_full_lattice(v: int, s: int, reso: nat)
    requires
        0 <= v < reso,
        0 <= s < reso,
        (v - s) % (reso as int) == 0,
    ensures
        v == s,
{
    vstd::arithmetic::div_mod::lemma_fundamental_div_mod(v - s, reso as int);
    let q = (v - s) / (reso as int);
    assert(v - s == reso * q);
    assert(q == 0) by (nonlinear_arith)
        requires
            v - s == reso * q,
            -(reso as int) < v - s < reso,
    ;
}

/// With a single seed on a grid whose side is a power of two, the run
/// labels every cell with that seed.
pub proof fn lemma_single_seed_fills_grid(seeds: Seq<(u32, u32)>, reso: nat)
    requires
        valid_reso(reso),
        is_pow2(reso),
        seeds.len() == 1,
        seeds_in_grid(seeds, reso),
    ensures
        jfa_labels(seeds, reso).len() == reso * reso,
        forall|c: int| 0 <= c < reso * reso ==> #[trigger] jfa_labels(seeds, reso)[c] == 1,
{
    let s = seeds[0];
    let (sx, sy) = (s.0 as int, s.1 as int);
    let g0 = initial_grid(seeds, reso);
    lemma_initial_wf(seeds, reso);
    lemma_seed_keeps_home(seeds, reso, 0, Seq::<u32>::empty());
    assert(covered(g0, reso, sx, sy, reso as int)) by {
        assert forall|x: int, y: int|
            0 <= x < reso && 0 <= y < reso && (x - sx) % (reso as int) == 0 && (y - sy) % (reso as int)
                == 0 implies #[trigger] g0[cell_index(reso, x, y)] != 0 by {
            lemma_same_on_full_lattice(x, sx, reso);
            lemma_same_on_full_lattice(y, sy, reso);
        }
    }
    let g1 = jfa_pass(g0, seeds, reso, 1);
    lemma_pass_keeps_covered(g0, seeds, reso, 1, sx, sy, reso as int);
    lemma_pass_wf(g0, seeds, reso, 1);
    let k0 = first_step(reso);
    lemma_run_passes_prepend(g0, seeds, reso, 1, halving_steps(k0));
    let fin = jfa_labels(seeds, reso);
    assert(fin == run_passes(g1, seeds, reso, halving_steps(k0)));
    if reso == 1 {
        assert(k0 == 1);
        assert(halving_steps(1) =~= seq![1u32] + halving_steps(0));
        lemma_run_passes_prepend(g1, seeds, reso, 1, halving_steps(0));
        assert(halving_steps(0) =~= Seq::<u32>::empty());
        assert(run_passes(jfa_pass(g1, seeds, reso, 1), seeds, reso, Seq::<u32>::empty()) == jfa_pass(g1, seeds, reso, 1));
        lemma_pass_keeps_covered(g1, seeds, reso, 1, sx, sy, reso as int);
        assert(covered(fin, reso, sx, sy, 1));
    } else {
        assert(k0 == reso / 2);
        assert(2 * k0 == reso);
        lemma_sweep_covers(g1, seeds, reso, k0, sx, sy);
    }
    lemma_final_labels_in_range(seeds, reso);
    assert forall|c: int| 0 <= c < reso * reso implies #[trigger] fin[c] == 1 by {
        lemma_cell_of_index(reso, c);
        let x = c % (reso as int);
        let y = c / (reso as int);
        assert((x - sx) % 1 == 0 && (y - sy) % 1 == 0);
        assert(fin[cell_index(reso, x, y)] != 0);
    }
}

/// With a single seed on a grid whose side is a power of two, one more pass
/// of step 1 after the schedule changes nothing.
pub proof fn lemma_single_seed_fixed_point(seeds: Seq<(u32, u32)>, reso: nat)
    requires
        valid_reso(reso),
        is_pow2(reso),
        seeds.len() == 1,
        seeds_in_grid(seeds, reso),
    ensures
        jfa_pass(jfa_labels(seeds, reso), seeds, reso, 1) == jfa_labels(seeds, reso),
{
    let fin = jfa_labels(seeds, reso);
    lemma_single_seed_fills_grid(seeds, reso);
    lemma_initial_wf(seeds, reso);
    lemma_run_passes_wf(initial_grid(seeds, reso), seeds, reso, step_schedule(reso));
    let r = jfa_pass(fin, seeds, reso, 1);
    lemma_pass_wf(fin, seeds, reso, 1);
    assert forall|c: int| 0 <= c < r.len() implies #[trigger] r[c] == fin[c] by {
        lemma_cell_of_index(reso, c);
        let x = c % (reso as int);
        let y = c / (reso as int);
        lemma_pass_at(fin, seeds, reso, 1, x, y);
        lemma_relabel_nonzero(fin, seeds, reso, 1, x, y, 0);
    }
    assert(r =~= fin);
}

} // verus!
