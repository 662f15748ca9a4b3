//! The pass scheduler: the state of one run from the initial grid to the
//! final labels, one complete pass at a time.
use vstd::prelude::*;
use crate::grid::{valid_reso, seeds_in_grid, labels_bounded, grid_wf};
use crate::kernel::{jfa_pass, lemma_pass_wf, propagate};
use crate::schedule::{step_schedule, schedule};
use crate::seeds::{JfaError, initial_grid, init_grid, is_negative, map_seeds, mapped_seeds};

verus! {

/// The grid after the passes of `steps`, in order, starting from `g`.
pub open spec fn run_passes(g: Seq<u32>, seeds: Seq<(u32, u32)>, reso: nat, steps: Seq<u32>) -> Seq<u32>
    decreases steps.len(),
{
    if steps.len() == 0 {
        g
    } else {
        jfa_pass(run_passes(g, seeds, reso, steps.drop_last()), seeds, reso, steps.last())
    }
}

/// The final labels of a run over `seeds` on a grid of side `reso`.
pub open spec fn jfa_labels(seeds: Seq<(u32, u32)>, reso: nat) -> Seq<u32> {
    run_passes(initial_grid(seeds, reso), seeds, reso, step_schedule(reso))
}

/// Passes keep a grid well formed.
pub proof fn lemma_run_passes_wf(g: Seq<u32>, seeds: Seq<(u32, u32)>, reso: nat, steps: Seq<u32>)
    requires
        grid_wf(g, seeds, reso),
    ensures
        grid_wf(run_passes(g, seeds, reso, steps), seeds, reso),
    decreases steps.len(),
{
    if steps.len() > 0 {
        lemma_run_passes_wf(g, seeds, reso, steps.drop_last());
        lemma_pass_wf(run_passes(g, seeds, reso, steps.drop_last()), seeds, reso, steps.last());
    }
}

/// What the driver of a run does next.
#[derive(Debug, Clone, Copy, PartialEq, Eq, Structural)]
pub enum PassAction {
    /// Publish the current grid and this step size, run one pass over the
    /// whole grid, and hand the complete result back.
    Propagate(u32),
    /// The schedule is done: the current grid is the result.
    Finish,
}

/// Why a pass result was not taken.
#[derive(Debug, Clone, Copy, PartialEq, Eq, Structural)]
pub enum PassError {
    /// Every scheduled pass has already been made.
    NoPassPending,
    /// The returned grid does not hold exactly one label per cell.
    IncompleteGrid,
    /// The returned grid holds a label that names no seed.
    LabelOutOfRange,
}

/// One run of the algorithm: seeds, the current grid, the schedule and how
/// many of its passes are done.
pub struct JfaRun {
    reso: usize,
    seeds: Vec<(u32, u32)>,
    grid: Vec<u32>,
    steps: Vec<u32>,
    done: usize,
}

impl JfaRun {
    pub closed spec fn reso_view(&self) -> nat {
        self.reso as nat
    }

    pub closed spec fn seeds_view(&self) -> Seq<(u32, u32)> {
        self.seeds@
    }

    pub closed spec fn grid_view(&self) -> Seq<u32> {
        self.grid@
    }

    pub closed spec fn steps_view(&self) -> Seq<u32> {
        self.steps@
    }

    pub closed spec fn passes_done(&self) -> nat {
        self.done as nat
    }

    /// The grid is complete with labels in range, the schedule is the one for
    /// the side length, and no more passes are done than it holds.
    pub closed spec fn wf(&self) -> bool {
        &&& grid_wf(self.grid@, self.seeds@, self.reso as nat)
        &&& self.steps@ == step_schedule(self.reso as nat)
        &&& self.done <= self.steps@.len()
    }

    /// Starts a run: the initial grid, and no pass made.
    pub fn start(seeds: Vec<(u32, u32)>, reso: usize) -> (r: JfaRun)
        requires
            valid_reso(reso as nat),
            seeds_in_grid(seeds@, reso as nat),
            seeds@.len() <= u32::MAX,
        ensures
            r.wf(),
            r.reso_view() == reso,
            r.seeds_view() == seeds@,
            r.grid_view() == initial_grid(seeds@, reso as nat),
            r.steps_view() == step_schedule(reso as nat),
            r.passes_done() == 0,
    {
        let grid = init_grid(&seeds, reso);
        let steps = schedule(reso);
        JfaRun { reso, seeds, grid, steps, done: 0 }
    }

    /// The next pass to make, or `Finish` once the schedule is done.
    pub fn next_action(&self) -> (a: PassAction)
        requires
            self.wf(),
        ensures
            self.passes_done() < self.steps_view().len() ==> a == PassAction::Propagate(
                self.steps_view()[self.passes_done() as int],
            ),
            self.passes_done() >= self.steps_view().len() ==> a == PassAction::Finish,
    {
        if self.done < self.steps.len() {
            PassAction::Propagate(self.steps[self.done])
        } else {
            PassAction::Finish
        }
    }

    /// Whether every scheduled pass has been made.
    pub fn is_finished(&self) -> (r: bool)
        requires
            self.wf(),
        ensures
            r == (self.passes_done() == self.steps_view().len()),
    {
        self.done == self.steps.len()
    }

    /// Takes the complete output of the pending pass as the new grid.
    ///
    /// The output is refused, and the run left as it was, where no pass is
    /// pending, where it is not a full grid, or where a label names no seed.
    pub fn complete_pass(&mut self, out: Vec<u32>) -> (r: Result<(), PassError>)
        requires
            old(self).wf(),
        ensures
            final(self).wf(),
            (r == Err::<(), PassError>(PassError::NoPassPending)) <==> old(self).passes_done()
                == old(self).steps_view().len(),
            (r == Err::<(), PassError>(PassError::IncompleteGrid)) <==> (old(self).passes_done()
                < old(self).steps_view().len() && out@.len() != old(self).reso_view()
                * old(self).reso_view()),
            (r == Err::<(), PassError>(PassError::LabelOutOfRange)) <==> (old(self).passes_done()
                < old(self).steps_view().len() && out@.len() == old(self).reso_view()
                * old(self).reso_view() && !labels_bounded(out@, old(self).seeds_view().len())),
            r is Ok ==> {
                &&& final(self).grid_view() == out@
                &&& final(self).passes_done() == old(self).passes_done() + 1
                &&& final(self).reso_view() == old(self).reso_view()
                &&& final(self).seeds_view() == old(self).seeds_view()
                &&& final(self).steps_view() == old(self).steps_view()
            },
            r is Err ==> *final(self) == *old(self),
    {
        if self.done == self.steps.len() {
            return Err(PassError::NoPassPending);
        }
        if out.len() != self.reso * self.reso {
            return Err(PassError::IncompleteGrid);
        }
        let n: usize = self.seeds.len();
        let mut i: usize = 0;
        while i < out.len()
            invariant
                *self == *old(self),
                self.wf(),
                self.done < self.steps@.len(),
                out@.len() == self.reso * self.reso,
                n == self.seeds@.len(),
                i <= out@.len(),
                forall|c: int| 0 <= c < i ==> #[trigger] out@[c] <= n,
            decreases out.len() - i,
        {
            if out[i] as usize > n {
                return Err(PassError::LabelOutOfRange);
            }
            i = i + 1;
        }
        self.grid = out;
        self.done = self.done + 1;
        Ok(())
    }

    /// The side length of the grid.
    pub fn reso(&self) -> (r: usize)
        ensures
            r == self.reso_view(),
    {
        self.reso
    }

    /// The seeds' grid cells, by seed index.
    pub fn seed_cells(&self) -> (s: &Vec<(u32, u32)>)
        ensures
            s@ == self.seeds_view(),
    {
        &self.seeds
    }

    /// The current grid.
    pub fn grid(&self) -> (g: &Vec<u32>)
        ensures
            g@ == self.grid_view(),
    {
        &self.grid
    }

    /// Ends the run and hands out the current grid.
    pub fn into_grid(self) -> (g: Vec<u32>)
        ensures
            g@ == self.grid_view(),
    {
        self.grid
    }
}

/// Labels every cell of a grid of side `reso` with the nearest seed found by
/// the full schedule of passes, each pass computed here.
pub fn label_grid(seeds: Vec<(u32, u32)>, reso: usize) -> (g: Vec<u32>)
    requires
        valid_reso(reso as nat),
        seeds_in_grid(seeds@, reso as nat),
        seeds@.len() <= u32::MAX,
    ensures
        g@ == jfa_labels(seeds@, reso as nat),
        grid_wf(g@, seeds@, reso as nat),
{
    let ghost s = seeds@;
    let ghost g0 = initial_grid(seeds@, reso as nat);
    let mut run = JfaRun::start(seeds, reso);
    assert(run.steps@.take(0) =~= Seq::<u32>::empty());
    while !run.is_finished()
        invariant
            run.wf(),
            run.reso == reso,
            run.seeds@ == s,
            run.steps@ == step_schedule(reso as nat),
            run.grid@ == run_passes(g0, s, reso as nat, run.steps@.take(run.done as int)),
        decreases run.steps@.len() - run.done,
    {
        let ghost d = run.done as int;
        if let PassAction::Propagate(k) = run.next_action() {
            let out = propagate(&run.grid, &run.seeds, reso, k);
            assert(labels_bounded(out@, s.len()));
            let r = run.complete_pass(out);
            assert(r != Err::<(), PassError>(PassError::NoPassPending));
            assert(r != Err::<(), PassError>(PassError::IncompleteGrid));
            assert(r != Err::<(), PassError>(PassError::LabelOutOfRange));
            match r {
                Ok(_) => {},
                Err(e) => {
                    assert(e == PassError::NoPassPending || e == PassError::IncompleteGrid || e
                        == PassError::LabelOutOfRange);
                },
            }
            assert(r is Ok);
            assert(run.steps@.take(d + 1).drop_last() =~= run.steps@.take(d));
        }
    }
    assert(run.steps@.take(run.done as int) =~= run.steps@);
    run.into_grid()
}

/// The whole computation from scaled seed coordinates: each coordinate is
/// `floor(v * reso / extent)` of a seed's position.
///
/// Fails on a side length that cannot be held, and as `map_seeds` does;
/// otherwise returns the labels of `label_grid` over the mapped seeds.
pub fn compute(cells: &Vec<(i64, i64)>, reso: usize) -> (r: Result<Vec<u32>, JfaError>)
    ensures
        (r == Err::<Vec<u32>, JfaError>(JfaError::InvalidResolution)) <==> !valid_reso(reso as nat),
        (r == Err::<Vec<u32>, JfaError>(JfaError::NoSeeds)) <==> (valid_reso(reso as nat)
            && cells@.len() == 0),
        (r == Err::<Vec<u32>, JfaError>(JfaError::TooManySeeds)) <==> (valid_reso(reso as nat)
            && cells@.len() > u32::MAX),
        r is Ok <==> (valid_reso(reso as nat) && 1 <= cells@.len() <= u32::MAX && forall|i: int|
            0 <= i < cells@.len() ==> !is_negative(#[trigger] cells@[i])),
        (valid_reso(reso as nat) && 1 <= cells@.len() <= u32::MAX && exists|i: int|
            0 <= i < cells@.len() && is_negative(#[trigger] cells@[i])) ==> r matches Err(
            JfaError::NegativeCoordinate(_),
        ),
        r matches Err(JfaError::NegativeCoordinate(i)) ==> {
            &&& i < cells@.len()
            &&& is_negative(cells@[i as int])
            &&& forall|j: int| 0 <= j < i ==> !is_negative(#[trigger] cells@[j])
        },
        !(r matches Err(JfaError::InvalidExtent)),
        r matches Ok(g) ==> g@ == jfa_labels(mapped_seeds(cells@, reso as nat), reso as nat),
{
    if !crate::grid::reso_is_valid(reso) {
        return Err(JfaError::InvalidResolution);
    }
    match map_seeds(cells, reso) {
        Ok(seeds) => Ok(label_grid(seeds, reso)),
        Err(e) => Err(e),
    }
}

} // verus!
