//! One propagation pass: every cell looks at its own label and at the labels
//! of the eight cells `k` away, and keeps the nearest seed among them.
use vstd::prelude::*;
use crate::grid::{cell_index, valid_reso, grid_wf, lemma_cell_in_grid};

verus! {

/// Squared Euclidean distance from seed `s` to cell `(x, y)`.
pub open spec fn sq_dist(s: (u32, u32), x: int, y: int) -> int {
    (s.0 - x) * (s.0 - x) + (s.1 - y) * (s.1 - y)
}

/// Distance from the seed named by a non-zero `label` to cell `(x, y)`.
pub open spec fn label_dist(seeds: Seq<(u32, u32)>, label: u32, x: int, y: int) -> int {
    sq_dist(seeds[label - 1], x, y)
}

/// Column offset of neighbour `j` (in units of the step); the eight
/// neighbours are taken row by row, skipping the cell itself.
pub open spec fn offset_dx(j: int) -> int {
    if j == 0 || j == 3 || j == 5 {
        -1
    } else if j == 1 || j == 6 {
        0
    } else {
        1
    }
}

/// Row offset of neighbour `j` (in units of the step).
pub open spec fn offset_dy(j: int) -> int {
    if j < 3 {
        -1
    } else if j < 5 {
        0
    } else {
        1
    }
}

/// The label of neighbour `j` of cell `(x, y)` at step `k`, or 0 where that
/// neighbour lies off the grid.
pub open spec fn neighbor_label(g: Seq<u32>, reso: nat, k: u32, x: int, y: int, j: int) -> u32 {
    let nx = x + offset_dx(j) * k;
    let ny = y + offset_dy(j) * k;
    if 0 <= nx < reso && 0 <= ny < reso {
        g[cell_index(reso, nx, ny)]
    } else {
        0
    }
}

/// Keeps `best` or takes candidate `c`: a zero candidate never wins, a
/// strictly nearer one always does, and on equal distance the cell's own
/// label stays, else the lower label wins.
pub open spec fn prefer(seeds: Seq<(u32, u32)>, x: int, y: int, own: u32, best: u32, c: u32) -> u32 {
    if c == 0 {
        best
    } else if best == 0 {
        c
    } else if label_dist(seeds, c, x, y) < label_dist(seeds, best, x, y) {
        c
    } else if label_dist(seeds, c, x, y) == label_dist(seeds, best, x, y) && best != own && c < best {
        c
    } else {
        best
    }
}

/// The winner among the cell's own label and its first `j` neighbours.
pub open spec fn best_of(
    g: Seq<u32>,
    seeds: Seq<(u32, u32)>,
    reso: nat,
    k: u32,
    x: int,
    y: int,
    j: nat,
) -> u32
    decreases j,
{
    if j == 0 {
        g[cell_index(reso, x, y)]
    } else {
        prefer(
            seeds,
            x,
            y,
            g[cell_index(reso, x, y)],
            best_of(g, seeds, reso, k, x, y, (j - 1) as nat),
            neighbor_label(g, reso, k, x, y, j - 1),
        )
    }
}

/// The new label of cell `(x, y)` after a pass of step `k`.
pub open spec fn relabel(g: Seq<u32>, seeds: Seq<(u32, u32)>, reso: nat, k: u32, x: int, y: int) -> u32 {
    best_of(g, seeds, reso, k, x, y, 8)
}

/// The whole grid after a pass of step `k`: each cell relabelled from the
/// grid before the pass only.
pub open spec fn jfa_pass(g: Seq<u32>, seeds: Seq<(u32, u32)>, reso: nat, k: u32) -> Seq<u32> {
    Seq::new(g.len(), |i: int| relabel(g, seeds, reso, k, i % (reso as int), i / (reso as int)))
}

/// A candidate label (own or neighbour) is within the label range.
proof fn lemma_neighbor_bounded(g: Seq<u32>, seeds: Seq<(u32, u32)>, reso: nat, k: u32, x: int, y: int, j: int)
    requires
        grid_wf(g, seeds, reso),
        0 <= x < reso,
        0 <= y < reso,
    ensures
        neighbor_label(g, reso, k, x, y, j) <= seeds.len(),
        g[cell_index(reso, x, y)] <= seeds.len(),
{
    lemma_cell_in_grid(reso, x, y);
    let nx = x + offset_dx(j) * k;
    let ny = y + offset_dy(j) * k;
    if 0 <= nx < reso && 0 <= ny < reso {
        lemma_cell_in_grid(reso, nx, ny);
    }
}

pub proof fn lemma_best_of_bounded(g: Seq<u32>, seeds: Seq<(u32, u32)>, reso: nat, k: u32, x: int, y: int, j: nat)
    requires
        grid_wf(g, seeds, reso),
        0 <= x < reso,
        0 <= y < reso,
    ensures
        best_of(g, seeds, reso, k, x, y, j) <= seeds.len(),
    decreases j,
{
    lemma_neighbor_bounded(g, seeds, reso, k, x, y, j - 1);
    if j > 0 {
        lemma_best_of_bounded(g, seeds, reso, k, x, y, (j - 1) as nat);
    }
}

/// A pass keeps the grid well formed.
pub proof fn lemma_pass_wf(g: Seq<u32>, seeds: Seq<(u32, u32)>, reso: nat, k: u32)
    requires
        grid_wf(g, seeds, reso),
    ensures
        grid_wf(jfa_pass(g, seeds, reso, k), seeds, reso),
{
    let r = jfa_pass(g, seeds, reso, k);
    assert forall|i: int| 0 <= i < r.len() implies #[trigger] r[i] <= seeds.len() by {
        let x = i % (reso as int);
        let y = i / (reso as int);
        lemma_cell_of_index(reso, i);
        lemma_best_of_bounded(g, seeds, reso, k, x, y, 8);
    }
}

/// An index of the grid names a cell on it.
pub proof fn lemma_cell_of_index(reso: nat, i: int)
    requires
        reso >= 1,
        0 <= i < reso * reso,
    ensures
        0 <= i % (reso as int) < reso,
        0 <= i / (reso as int) < reso,
        cell_index(reso, i % (reso as int), i / (reso as int)) == i,
{
    vstd::arithmetic::div_mod::lemma_fundamental_div_mod(i, reso as int);
    vstd::arithmetic::div_mod::lemma_mod_pos_bound(i, reso as int);
    vstd::arithmetic::div_mod::lemma_div_pos_is_pos(i, reso as int);
    let q = i / (reso as int);
    let m = i % (reso as int);
    assert(q < reso) by (nonlinear_arith)
        requires
            i == reso * q + m,
            0 <= m,
            i < reso * reso,
            reso >= 1,
    ;
    assert(m + q * reso == i) by (nonlinear_arith)
        requires
            i == reso * q + m,
    ;
}

/// Squared distance from seed `s` to cell `(x, y)`, computed exactly.
fn seed_dist(s: (u32, u32), x: usize, y: usize) -> (d: u128)
    requires
        x <= u32::MAX,
        y <= u32::MAX,
    ensures
        d == sq_dist(s, x as int, y as int),
{
    let dx: u64 = if s.0 as u64 >= x as u64 {
        s.0 as u64 - x as u64
    } else {
        x as u64 - s.0 as u64
    };
    let dy: u64 = if s.1 as u64 >= y as u64 {
        s.1 as u64 - y as u64
    } else {
        y as u64 - s.1 as u64
    };
    proof {
        assert(dx as int * dx as int == (s.0 - x) * (s.0 - x)) by (nonlinear_arith)
            requires
                dx == s.0 - x || dx == x - s.0,
        ;
        assert(dy as int * dy as int == (s.1 - y) * (s.1 - y)) by (nonlinear_arith)
            requires
                dy == s.1 - y || dy == y - s.1,
        ;
        assert(dx as int * dx as int <= 0xFFFF_FFFF * 0xFFFF_FFFF) by (nonlinear_arith)
            requires
                dx <= 0xFFFF_FFFF,
        ;
        assert(dy as int * dy as int <= 0xFFFF_FFFF * 0xFFFF_FFFF) by (nonlinear_arith)
            requires
                dy <= 0xFFFF_FFFF,
        ;
    }
    let ddx: u128 = dx as u128 * dx as u128;
    let ddy: u128 = dy as u128 * dy as u128;
    ddx + ddy
}

/// Moves coordinate `v` by `(d - 1) * k`, or `None` where that leaves the
/// grid.
fn shift(v: usize, d: u8, k: u32, reso: usize) -> (r: Option<usize>)
    requires
        v < reso,
        d < 3,
    ensures
        r matches Some(n) ==> n == v + (d - 1) * k && n < reso,
        r is None ==> !(0 <= v + (d - 1) * k < reso),
{
    let kk: usize = k as usize;
    assert(kk == k);
    assert((d - 1) * k == if d == 0 { -(k as int) } else if d == 1 { 0 } else { k as int }) by (nonlinear_arith)
        requires
            d < 3,
    ;
    if d == 0 {
        if v >= kk {
            Some(v - kk)
        } else {
            None
        }
    } else if d == 1 {
        Some(v)
    } else {
        if kk < reso - v {
            Some(v + kk)
        } else {
            None
        }
    }
}

/// The label of neighbour `j` of cell `(x, y)` at step `k`.
fn neighbor_at(g: &Vec<u32>, reso: usize, k: u32, x: usize, y: usize, j: usize) -> (c: u32)
    requires
        valid_reso(reso as nat),
        g@.len() == reso * reso,
        x < reso,
        y < reso,
        j < 8,
    ensures
        c == neighbor_label(g@, reso as nat, k, x as int, y as int, j as int),
{
    let dx: u8 = if j == 0 || j == 3 || j == 5 {
        0
    } else if j == 1 || j == 6 {
        1
    } else {
        2
    };
    let dy: u8 = if j < 3 {
        0
    } else if j < 5 {
        1
    } else {
        2
    };
    match (shift(x, dx, k, reso), shift(y, dy, k, reso)) {
        (Some(nx), Some(ny)) => {
            proof {
                lemma_cell_in_grid(reso as nat, nx as int, ny as int);
            }
            g[nx + ny * reso]
        },
        _ => 0,
    }
}

/// The label of cell `(x, y)` after a pass of step `k`.
fn relabel_cell(g: &Vec<u32>, seeds: &Vec<(u32, u32)>, reso: usize, k: u32, x: usize, y: usize) -> (r: u32)
    requires
        grid_wf(g@, seeds@, reso as nat),
        x < reso,
        y < reso,
    ensures
        r == relabel(g@, seeds@, reso as nat, k, x as int, y as int),
{
    proof {
        lemma_cell_in_grid(reso as nat, x as int, y as int);
        lemma_neighbor_bounded(g@, seeds@, reso as nat, k, x as int, y as int, 0);
    }
    let own: u32 = g[x + y * reso];
    let mut best: u32 = own;
    let mut j: usize = 0;
    while j < 8
        invariant
            grid_wf(g@, seeds@, reso as nat),
            x < reso,
            y < reso,
            j <= 8,
            own == g@[cell_index(reso as nat, x as int, y as int)],
            best == best_of(g@, seeds@, reso as nat, k, x as int, y as int, j as nat),
            best <= seeds@.len(),
        decreases 8 - j,
    {
        let c = neighbor_at(g, reso, k, x, y, j);
        proof {
            lemma_neighbor_bounded(g@, seeds@, reso as nat, k, x as int, y as int, j as int);
        }
        if c != 0 {
            if best == 0 {
                best = c;
            } else {
                let dc = seed_dist(seeds[(c - 1) as usize], x, y);
                let db = seed_dist(seeds[(best - 1) as usize], x, y);
                if dc < db || (dc == db && best != own && c < best) {
                    best = c;
                }
            }
        }
        j = j + 1;
    }
    best
}

/// Runs one pass of step `k` over the whole grid.
///
/// Each cell's new label depends on the grid before the pass alone; the
/// result is a complete new grid.
pub fn propagate(g: &Vec<u32>, seeds: &Vec<(u32, u32)>, reso: usize, k: u32) -> (out: Vec<u32>)
    requires
        grid_wf(g@, seeds@, reso as nat),
    ensures
        out@ == jfa_pass(g@, seeds@, reso as nat, k),
        grid_wf(out@, seeds@, reso as nat),
{
    let n: usize = reso * reso;
    let mut out: Vec<u32> = Vec::new();
    let mut i: usize = 0;
    while i < n
        invariant
            grid_wf(g@, seeds@, reso as nat),
            n == reso * reso,
            i <= n,
            out@ =~= jfa_pass(g@, seeds@, reso as nat, k).take(i as int),
        decreases n - i,
    {
        proof {
            lemma_cell_of_index(reso as nat, i as int);
        }
        let x: usize = i % reso;
        let y: usize = i / reso;
        let label = relabel_cell(g, seeds, reso, k, x, y);
        out.push(label);
        i = i + 1;
    }
    proof {
        lemma_pass_wf(g@, seeds@, reso as nat, k);
    }
    assert(out@ =~= jfa_pass(g@, seeds@, reso as nat, k));
    out
}

} // verus!
