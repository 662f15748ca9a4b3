//! The label grid: a square of `reso * reso` cells stored row by row.
use vstd::prelude::*;

verus! {

/// Side length of the grid used by the GPU entry point.
pub const RESO: usize = 512;

/// A side length for which every cell index fits `usize` and every
/// coordinate fits `u32`.
pub open spec fn valid_reso(reso: nat) -> bool {
    1 <= reso && reso <= 0x1_0000_0000 && reso * reso <= usize::MAX
}

/// Row-major index of cell `(x, y)`.
pub open spec fn cell_index(reso: nat, x: int, y: int) -> int {
    x + y * reso
}

/// Every seed lies on the grid.
pub open spec fn seeds_in_grid(seeds: Seq<(u32, u32)>, reso: nat) -> bool {
    forall|i: int| 0 <= i < seeds.len() ==> (#[trigger] seeds[i]).0 < reso && seeds[i].1 < reso
}

/// Every label is 0 or names one of `n` seeds.
pub open spec fn labels_bounded(g: Seq<u32>, n: nat) -> bool {
    forall|i: int| 0 <= i < g.len() ==> #[trigger] g[i] <= n
}

/// A grid of the right size over seeds that lie on it, with labels in range.
pub open spec fn grid_wf(g: Seq<u32>, seeds: Seq<(u32, u32)>, reso: nat) -> bool {
    &&& valid_reso(reso)
    &&& g.len() == reso * reso
    &&& seeds_in_grid(seeds, reso)
    &&& seeds.len() <= u32::MAX
    &&& labels_bounded(g, seeds.len())
}

/// A cell on the grid has an index inside it.
pub proof fn lemma_cell_in_grid(reso: nat, x: int, y: int)
    requires
        0 <= x < reso,
        0 <= y < reso,
    ensures
        0 <= cell_index(reso, x, y) < reso * reso,
{
    assert(0 <= x + y * reso < reso * reso) by (nonlinear_arith)
        requires
            0 <= x < reso,
            0 <= y < reso,
    ;
}

/// A cell index splits back into its column and row.
pub proof fn lemma_cell_coords(reso: nat, x: int, y: int)
    requires
        0 <= x < reso,
        0 <= y < reso,
    ensures
        cell_index(reso, x, y) % (reso as int) == x,
        cell_index(reso, x, y) / (reso as int) == y,
{
    vstd::arithmetic::div_mod::lemma_fundamental_div_mod_converse(
        cell_index(reso, x, y),
        reso as int,
        y,
        x,
    );
}

/// Distinct cells on the grid have distinct indices.
pub proof fn lemma_cell_injective(reso: nat, x1: int, y1: int, x2: int, y2: int)
    requires
        0 <= x1 < reso,
        0 <= y1 < reso,
        0 <= x2 < reso,
        0 <= y2 < reso,
        cell_index(reso, x1, y1) == cell_index(reso, x2, y2),
    ensures
        x1 == x2,
        y1 == y2,
{
    lemma_cell_coords(reso, x1, y1);
    lemma_cell_coords(reso, x2, y2);
}

/// Whether `reso` is a side length the library can work with.
pub fn reso_is_valid(reso: usize) -> (r: bool)
    ensures
        r == valid_reso(reso as nat),
{
    if reso == 0 || reso as u64 > 0x1_0000_0000u64 {
        return false;
    }
    match reso.checked_mul(reso) {
        Some(_) => true,
        None => false,
    }
}

} // verus!
