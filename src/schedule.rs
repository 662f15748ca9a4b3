//! The sequence of step sizes, one per propagation pass.
use vstd::prelude::*;
use crate::grid::valid_reso;

verus! {

/// `k, k/2, k/4, ..., 1` (empty for `k == 0`).
pub open spec fn halving_steps(k: u32) -> Seq<u32>
    decreases k,
{
    if k == 0 {
        Seq::empty()
    } else {
        seq![k] + halving_steps(k / 2)
    }
}

/// The coarsest step: half the side length, at least 1.
pub open spec fn first_step(reso: nat) -> u32 {
    if reso / 2 >= 1 {
        (reso / 2) as u32
    } else {
        1
    }
}

/// A leading pass of step 1, then the coarse-to-fine sweep from `first_step`
/// down to 1.
pub open spec fn step_schedule(reso: nat) -> Seq<u32> {
    seq![1u32] + halving_steps(first_step(reso))
}

/// The step sizes of a run on a grid of side `reso`, in the order the passes
/// are made.
pub fn schedule(reso: usize) -> (steps: Vec<u32>)
    requires
        valid_reso(reso as nat),
    ensures
        steps@ == step_schedule(reso as nat),
{
    let mut steps: Vec<u32> = Vec::new();
    steps.push(1);
    let mut k: u32 = if reso / 2 >= 1 {
        (reso / 2) as u32
    } else {
        1
    };
    while k >= 1
        invariant
            steps@ + halving_steps(k) == step_schedule(reso as nat),
        decreases k,
    {
        let ghost before = steps@;
        assert(halving_steps(k) == seq![k] + halving_steps(k / 2));
        steps.push(k);
        assert(steps@ + halving_steps(k / 2) =~= before + halving_steps(k));
        k = k / 2;
    }
    assert(steps@ + halving_steps(k) =~= steps@);
    steps
}

/// On a 512-cell side the schedule is ten passes:
/// `1, 256, 128, 64, 32, 16, 8, 4, 2, 1`.
pub proof fn lemma_schedule_512()
    ensures
        step_schedule(512) == seq![1u32, 256, 128, 64, 32, 16, 8, 4, 2, 1],
{
    reveal_with_fuel(halving_steps, 11);
    assert(step_schedule(512) =~= seq![1u32, 256, 128, 64, 32, 16, 8, 4, 2, 1]);
}

} // verus!
