//! Seed mapping: from scaled coordinates to grid cells, and the initial grid.
use vstd::prelude::*;
use crate::grid::{
    cell_index, valid_reso, seeds_in_grid, labels_bounded, grid_wf, lemma_cell_in_grid,
    lemma_cell_injective,
};

verus! {

/// Why a run could not start.
#[derive(Debug, Clone, Copy, PartialEq, Eq, Structural)]
pub enum JfaError {
    /// No seed was given.
    NoSeeds,
    /// The bounding extent has a dimension that is not positive.
    InvalidExtent,
    /// The grid side length is zero or too large for this machine.
    InvalidResolution,
    /// More seeds than a `u32` label can name.
    TooManySeeds,
    /// The seed at this index has a negative coordinate.
    NegativeCoordinate(usize),
}

/// A scaled coordinate `floor(v * reso / extent)` brought onto the grid:
/// clamped from above to `reso - 1`.
pub open spec fn clamp_coord(v: i64, reso: nat) -> u32 {
    if v >= reso - 1 {
        (reso - 1) as u32
    } else {
        v as u32
    }
}

pub open spec fn is_negative(c: (i64, i64)) -> bool {
    c.0 < 0 || c.1 < 0
}

/// The grid cell of each seed.
pub open spec fn mapped_seeds(cells: Seq<(i64, i64)>, reso: nat) -> Seq<(u32, u32)> {
    Seq::new(cells.len(), |i: int| (clamp_coord(cells[i].0, reso), clamp_coord(cells[i].1, reso)))
}

/// The grid after the first `n` seeds have been written, each onto its cell,
/// a later seed overwriting an earlier one on the same cell.
pub open spec fn seeded_upto(seeds: Seq<(u32, u32)>, reso: nat, n: nat) -> Seq<u32>
    decreases n,
{
    if n == 0 {
        Seq::new(reso * reso, |i: int| 0u32)
    } else {
        let s = seeds[n - 1];
        seeded_upto(seeds, reso, (n - 1) as nat).update(cell_index(reso, s.0 as int, s.1 as int), n as u32)
    }
}

/// All cells 0 but each seed's cell, which holds the seed's 1-based index.
pub open spec fn initial_grid(seeds: Seq<(u32, u32)>, reso: nat) -> Seq<u32> {
    seeded_upto(seeds, reso, seeds.len())
}

/// Brings scaled seed coordinates onto the grid.
///
/// Fails on an empty list, on more seeds than labels, and on a negative
/// coordinate (naming the first seed that has one); otherwise each coordinate
/// is clamped to at most `reso - 1`.
pub fn map_seeds(cells: &Vec<(i64, i64)>, reso: usize) -> (r: Result<Vec<(u32, u32)>, JfaError>)
    requires
        valid_reso(reso as nat),
    ensures
        (r == Err::<Vec<(u32, u32)>, JfaError>(JfaError::NoSeeds)) <==> cells@.len() == 0,
        (r == Err::<Vec<(u32, u32)>, JfaError>(JfaError::TooManySeeds)) <==> cells@.len() > u32::MAX,
        r is Ok <==> (1 <= cells@.len() <= u32::MAX && forall|i: int|
            0 <= i < cells@.len() ==> !is_negative(#[trigger] cells@[i])),
        (1 <= cells@.len() <= u32::MAX && exists|i: int|
            0 <= i < cells@.len() && is_negative(#[trigger] cells@[i])) ==> r matches Err(
            JfaError::NegativeCoordinate(_),
        ),
        r matches Err(JfaError::NegativeCoordinate(i)) ==> {
            &&& 1 <= cells@.len() <= u32::MAX
            &&& i < cells@.len()
            &&& is_negative(cells@[i as int])
            &&& forall|j: int| 0 <= j < i ==> !is_negative(#[trigger] cells@[j])
        },
        !(r matches Err(JfaError::InvalidExtent)),
        !(r matches Err(JfaError::InvalidResolution)),
        r matches Ok(s) ==> s@ == mapped_seeds(cells@, reso as nat) && seeds_in_grid(s@, reso as nat),
{
    if cells.len() == 0 {
        return Err(JfaError::NoSeeds);
    }
    if cells.len() as u64 > 0xFFFF_FFFFu64 {
        return Err(JfaError::TooManySeeds);
    }
    let top: u32 = (reso - 1) as u32;
    let mut out: Vec<(u32, u32)> = Vec::new();
    let mut i: usize = 0;
    while i < cells.len()
        invariant
            valid_reso(reso as nat),
            top == reso - 1,
            1 <= cells@.len() <= u32::MAX,
            i <= cells@.len(),
            out@ == mapped_seeds(cells@, reso as nat).take(i as int),
            forall|j: int| 0 <= j < i ==> !is_negative(#[trigger] cells@[j]),
        decreases cells.len() - i,
    {
        let (a, b) = cells[i];
        if a < 0 || b < 0 {
            return Err(JfaError::NegativeCoordinate(i));
        }
        let x: u32 = if a >= top as i64 {
            top
        } else {
            a as u32
        };
        let y: u32 = if b >= top as i64 {
            top
        } else {
            b as u32
        };
        out.push((x, y));
        i = i + 1;
        assert(out@ =~= mapped_seeds(cells@, reso as nat).take(i as int));
    }
    assert(out@ =~= mapped_seeds(cells@, reso as nat));
    Ok(out)
}

/// The grid before the first pass.
pub fn init_grid(seeds: &Vec<(u32, u32)>, reso: usize) -> (g: Vec<u32>)
    requires
        valid_reso(reso as nat),
        seeds_in_grid(seeds@, reso as nat),
        seeds@.len() <= u32::MAX,
    ensures
        g@ == initial_grid(seeds@, reso as nat),
        grid_wf(g@, seeds@, reso as nat),
{
    let n: usize = reso * reso;
    let mut g: Vec<u32> = Vec::new();
    while g.len() < n
        invariant
            n == reso * reso,
            g@.len() <= n,
            forall|c: int| 0 <= c < g@.len() ==> g@[c] == 0u32,
        decreases n - g@.len(),
    {
        g.push(0);
    }
    assert(g@ =~= seeded_upto(seeds@, reso as nat, 0));
    let mut i: usize = 0;
    while i < seeds.len()
        invariant
            valid_reso(reso as nat),
            seeds_in_grid(seeds@, reso as nat),
            seeds@.len() <= u32::MAX,
            i <= seeds@.len(),
            g@ == seeded_upto(seeds@, reso as nat, i as nat),
            g@.len() == reso * reso,
            labels_bounded(g@, i as nat),
        decreases seeds.len() - i,
    {
        let (x, y) = seeds[i];
        assert(seeds@[i as int].0 < reso && seeds@[i as int].1 < reso);
        proof {
            lemma_cell_in_grid(reso as nat, x as int, y as int);
        }
        let idx: usize = x as usize + y as usize * reso;
        g.set(idx, (i + 1) as u32);
        i = i + 1;
    }
    g
}

/// The seed coordinates laid out as `x0, y0, x1, y1, ...`, the form in which
/// a propagation backend receives them.
pub fn flatten_seeds(seeds: &Vec<(u32, u32)>) -> (flat: Vec<u32>)
    requires
        seeds@.len() * 2 <= usize::MAX,
    ensures
        flat@.len() == 2 * seeds@.len(),
        forall|i: int| 0 <= i < seeds@.len() ==> flat@[2 * i] == (#[trigger] seeds@[i]).0 && flat@[2 * i + 1] == seeds@[i].1,
{
    let mut flat: Vec<u32> = Vec::new();
    let mut i: usize = 0;
    while i < seeds.len()
        invariant
            i <= seeds@.len(),
            flat@.len() == 2 * i,
            forall|j: int| 0 <= j < i ==> flat@[2 * j] == (#[trigger] seeds@[j]).0 && flat@[2 * j + 1] == seeds@[j].1,
        decreases seeds.len() - i,
    {
        let (x, y) = seeds[i];
        flat.push(x);
        flat.push(y);
        i = i + 1;
    }
    flat
}

/// The grid stays full size, and holds no label above the seeds written.
pub proof fn lemma_seeded_upto_wf(seeds: Seq<(u32, u32)>, reso: nat, n: nat)
    requires
        valid_reso(reso),
        seeds_in_grid(seeds, reso),
        n <= seeds.len(),
        seeds.len() <= u32::MAX,
    ensures
        seeded_upto(seeds, reso, n).len() == reso * reso,
        labels_bounded(seeded_upto(seeds, reso, n), n),
    decreases n,
{
    if n > 0 {
        lemma_seeded_upto_wf(seeds, reso, (n - 1) as nat);
        let t = seeds[n - 1];
        lemma_cell_in_grid(reso, t.0 as int, t.1 as int);
        let prev = seeded_upto(seeds, reso, (n - 1) as nat);
        let cur = seeded_upto(seeds, reso, n);
        assert forall|c: int| 0 <= c < cur.len() implies #[trigger] cur[c] <= n by {
            if c != cell_index(reso, t.0 as int, t.1 as int) {
                assert(cur[c] == prev[c]);
            }
        }
    }
}

/// The initial grid is well formed.
pub proof fn lemma_initial_wf(seeds: Seq<(u32, u32)>, reso: nat)
    requires
        valid_reso(reso),
        seeds_in_grid(seeds, reso),
        seeds.len() <= u32::MAX,
    ensures
        grid_wf(initial_grid(seeds, reso), seeds, reso),
{
    lemma_seeded_upto_wf(seeds, reso, seeds.len());
}

/// Seed `i` holds its cell once written, unless a later seed lies on the
/// same cell.
pub proof fn lemma_seeded_upto_home(seeds: Seq<(u32, u32)>, reso: nat, i: int, m: nat)
    requires
        valid_reso(reso),
        seeds_in_grid(seeds, reso),
        seeds.len() <= u32::MAX,
        0 <= i < m <= seeds.len(),
        forall|j: int| i < j < seeds.len() ==> #[trigger] seeds[j] != seeds[i],
    ensures
        seeded_upto(seeds, reso, m)[cell_index(reso, seeds[i].0 as int, seeds[i].1 as int)] == i + 1,
    decreases m,
{
    lemma_seeded_upto_wf(seeds, reso, m);
    let s = seeds[i];
    lemma_cell_in_grid(reso, s.0 as int, s.1 as int);
    if m > i + 1 {
        lemma_seeded_upto_home(seeds, reso, i, (m - 1) as nat);
        let t = seeds[m - 1];
        lemma_cell_in_grid(reso, t.0 as int, t.1 as int);
        assert(t != s);
        if cell_index(reso, t.0 as int, t.1 as int) == cell_index(reso, s.0 as int, s.1 as int) {
            lemma_cell_injective(reso, t.0 as int, t.1 as int, s.0 as int, s.1 as int);
            assert(t == s);
        }
        lemma_seeded_upto_wf(seeds, reso, (m - 1) as nat);
    } else {
        lemma_seeded_upto_wf(seeds, reso, (m - 1) as nat);
    }
}

} // verus!
