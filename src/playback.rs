use vstd::prelude::*;

use crate::recording::{
    clamped, N, SortRecordingLinear, SortRecordingLinearCycleSort,
    SortRecordingQuadradtic, SortRecordingQuadraticQuickSort,
};
use crate::sorts::{
    bubble_sort, cycle_sort, insertion_sort, quick_sort, selection_sort, sorted, sorts_to, equal_between, bubble_stages, selection_stages,
    insertion_stages, quick_stages, cycle_stages,
};

verus! {

/// The brightness levels that demo inputs are drawn from, one per position.
pub open spec fn level(i: int) -> u32 {
    if i == 0 {
        0
    } else if i == 1 {
        2
    } else if i == 2 {
        5
    } else if i == 3 {
        8
    } else {
        9
    }
}

/// One step of drawing a permutation of the brightness levels: the draw picks
/// the level at `draw % N`, which is taken if no earlier step took it.
pub fn pick_level(used: &mut [bool; N], draw: u32) -> (r: Option<u32>)
    ensures
        ({
            let i = (draw % 5) as int;
            if old(used)@[i] {
                r == None::<u32> && final(used)@ == old(used)@
            } else {
                r == Some(level(i)) && final(used)@ == old(used)@.update(i, true)
            }
        }),
{
    let levels: [u32; N] = [0, 2, 5, 8, 9];
    let random_index: usize = (draw % 5) as usize;
    if used[random_index] {
        None
    } else {
        used[random_index] = true;
        Some(levels[random_index])
    }
}

/// A stage as the bytes that a display takes: each value cut to its low eight bits.
pub fn to_u8(sort_stage: [u32; N]) -> (r: [u8; N])
    ensures
        forall|i: int| 0 <= i < N ==> #[trigger] r@[i] as int == sort_stage@[i] as int % 256,
{
    let mut r: [u8; N] = [0; N];
    let mut i: usize = 0;
    while i < N
        invariant
            i <= N,
            forall|k: int| 0 <= k < i ==> #[trigger] r@[k] as int == sort_stage@[k] as int % 256,
        decreases N - i,
    {
        r[i] = (sort_stage[i] % 256) as u8;
        i += 1;
    }
    r
}

/// The five recordings of one input, replayed side by side.
pub struct SortRace {
    pub bubble: SortRecordingQuadradtic,
    pub selection: SortRecordingLinear,
    pub insertion: SortRecordingQuadradtic,
    pub quick: SortRecordingQuadraticQuickSort,
    pub cycle: SortRecordingLinearCycleSort,
}

impl SortRace {
    /// Each recording holds at least one stage and no more than its capacity.
    pub open spec fn wf(&self) -> bool {
        &&& self.bubble.wf() && self.bubble.count > 0
        &&& self.selection.wf() && self.selection.count > 0
        &&& self.insertion.wf() && self.insertion.count > 0
        &&& self.quick.wf() && self.quick.count > 0
        &&& self.cycle.wf() && self.cycle.count > 0
    }

    /// The stage counts in row order.
    pub open spec fn counts(&self) -> Seq<int> {
        seq![
            self.bubble.count as int,
            self.selection.count as int,
            self.insertion.count as int,
            self.quick.count as int,
            self.cycle.count as int,
        ]
    }

    /// The recordings in row order.
    pub open spec fn rows(&self) -> Seq<Seq<Seq<u32>>> {
        seq![self.bubble@, self.selection@, self.insertion@, self.quick@, self.cycle@]
    }

    /// What frame `f` shows in row `k`: that recording's stage at `f`, clamped.
    pub open spec fn shown(&self, f: int, k: int) -> Seq<u32> {
        self.rows()[k][clamped(f, self.counts()[k])]
    }

    /// Runs every algorithm on its own copy of `input`.
    #[verifier::rlimit(100)]
    pub fn new(input: [u32; N]) -> (r: Self)
        ensures
            r.wf(),
            forall|k: int| 0 <= k < 5 ==> #[trigger] r.rows()[k][0] == input@,
            sorts_to(r.bubble@, input@, r.bubble@.last()),
            sorts_to(r.selection@, input@, r.selection@.last()),
            sorts_to(r.insertion@, input@, r.insertion@.last()),
            sorts_to(r.quick@, input@, r.quick@.last()),
            sorted(r.cycle@.last()),
            forall|v: u32| #[trigger] equal_between(r.cycle@.last(), 0, 5, v) == equal_between(input@, 0, 5, v),
            r.bubble@ == bubble_stages(input@),
            r.selection@ == selection_stages(input@),
            r.insertion@ == insertion_stages(input@),
            r.quick@ == quick_stages(input@),
            r.cycle@ == cycle_stages(input@),
    {
        let mut a0 = input;
        let mut a1 = input;
        let mut a2 = input;
        let mut a3 = input;
        let mut a4 = input;
        let bubble = bubble_sort(&mut a0);
        let selection = selection_sort(&mut a1);
        let insertion = insertion_sort(&mut a2);
        let quick = quick_sort(&mut a3);
        let cycle = cycle_sort(&mut a4);
        let r = SortRace { bubble, selection, insertion, quick, cycle };
        assert(r.rows()[0][0] == input@);
        assert(r.rows()[1][0] == input@);
        assert(r.rows()[2][0] == input@);
        assert(r.rows()[3][0] == input@);
        assert(r.rows()[4][0] == input@);
        r
    }

    /// The largest stage count: the number of frames of the replay.
    pub fn max_stages_count(&self) -> (r: usize)
        ensures
            forall|k: int| 0 <= k < 5 ==> #[trigger] self.counts()[k] <= r,
            exists|k: int| 0 <= k < 5 && #[trigger] self.counts()[k] == r,
    {
        let mut max_stages_count = self.bubble.count;
        if self.selection.count > max_stages_count {
            max_stages_count = self.selection.count;
        }
        if self.insertion.count > max_stages_count {
            max_stages_count = self.insertion.count;
        }
        if self.quick.count > max_stages_count {
            max_stages_count = self.quick.count;
        }
        if self.cycle.count > max_stages_count {
            max_stages_count = self.cycle.count;
        }
        proof {
            let c = self.counts();
            assert(c[0] <= max_stages_count && c[1] <= max_stages_count && c[2] <= max_stages_count
                && c[3] <= max_stages_count && c[4] <= max_stages_count);
            assert(c[0] == max_stages_count || c[1] == max_stages_count || c[2] == max_stages_count
                || c[3] == max_stages_count || c[4] == max_stages_count);
        }
        max_stages_count
    }

    /// Frame `f` of the replay: one stage per algorithm, in row order.
    pub fn frame(&self, f: usize) -> (r: [[u32; N]; 5])
        requires
            self.wf(),
        ensures
            forall|k: int| 0 <= k < 5 ==> #[trigger] r@[k]@ == self.shown(f as int, k),
    {
        [
            self.bubble.get_stage(f),
            self.selection.get_stage(f),
            self.insertion.get_stage(f),
            self.quick.get_stage(f),
            self.cycle.get_stage(f),
        ]
    }
}

/// Once a replay has passed the end of a recording, that row keeps showing the
/// recording's last stage; for a recording that ends sorted, that stage is sorted.
pub proof fn lemma_short_recording_holds_final(race: SortRace, f: int, k: int)
    requires
        race.wf(),
        0 <= k < 5,
        race.counts()[k] <= f,
    ensures
        race.shown(f, k) == race.rows()[k].last(),
        race.shown(f, k) == race.shown(race.counts()[k] - 1, k),
{
}

} // verus!
