use vstd::prelude::*;

verus! {

/// Number of values in every collection that is sorted and recorded.
pub const N: usize = 5;

/// Worst-case exchanges of bubble and insertion sort on `N` values.
pub const MAX_SWAPS_QUADRATIC: usize = (N - 1) * N / 2;

/// Worst-case exchanges of selection sort on `N` values.
pub const MAX_SWAPS_LINEAR: usize = N - 1;

/// Worst-case writes of cycle sort on `N` values.
pub const MAX_SWAPS_LINEAR_CYCLE_SORT: usize = N;

/// Worst-case exchanges of Lomuto quicksort on `N` values.
pub const MAX_SWAPS_QUADRATIC_QUICKSORT: usize = N * (N + 1) / 2 - 1;

pub const QUADRATIC_SWAPS_STAGES: usize = 1 + MAX_SWAPS_QUADRATIC;

pub const LINEAR_SWAPS_STAGES: usize = 1 + MAX_SWAPS_LINEAR;

pub const LINEAR_SWAPS_CYCLE_SORT_STAGES: usize = 1 + MAX_SWAPS_LINEAR_CYCLE_SORT;

pub const QUADRATIC_QUICKSORT_SWAPS_STAGES: usize = 1 + MAX_SWAPS_QUADRATIC_QUICKSORT;

/// A fixed-capacity, append-only history of the states of a collection.
#[derive(Debug)]
pub struct SortRecording<const MAX_STAGES: usize> {
    pub stages: [[u32; N]; MAX_STAGES],
    pub count: usize,
}

pub type SortRecordingQuadradtic = SortRecording<QUADRATIC_SWAPS_STAGES>;

pub type SortRecordingLinear = SortRecording<LINEAR_SWAPS_STAGES>;

pub type SortRecordingQuadraticQuickSort = SortRecording<QUADRATIC_QUICKSORT_SWAPS_STAGES>;

pub type SortRecordingLinearCycleSort = SortRecording<LINEAR_SWAPS_CYCLE_SORT_STAGES>;

/// The index that a clamped read of a recording with `count` stages goes to.
pub open spec fn clamped(i: int, count: int) -> int {
    if i < count {
        i
    } else {
        count - 1
    }
}

impl<const MAX_STAGES: usize> SortRecording<MAX_STAGES> {
    /// The recorded stages, oldest first.
    pub open spec fn view(&self) -> Seq<Seq<u32>> {
        Seq::new(self.count as nat, |i: int| self.stages[i]@)
    }

    pub open spec fn wf(&self) -> bool {
        self.count <= MAX_STAGES
    }

    pub fn new() -> (r: Self)
        ensures
            r.wf(),
            r.count == 0,
            r@ == Seq::<Seq<u32>>::empty(),
            forall|k: int| 0 <= k < MAX_STAGES ==> #[trigger] r.stages@[k]@ == seq![0u32; 5],
    {
        let r = SortRecording { stages: [[0; N]; MAX_STAGES], count: 0 };
        assert forall|k: int| 0 <= k < MAX_STAGES implies #[trigger] r.stages@[k]@ == seq![0u32; 5] by {
            assert(r.stages@[k]@ =~= seq![0u32; 5]);
        }
        r
    }

    /// Appends a copy of `input` as the newest stage.
    pub fn push(&mut self, input: &[u32; N])
        requires
            old(self).wf(),
            old(self).count < MAX_STAGES,
        ensures
            final(self).wf(),
            final(self).count == old(self).count + 1,
            final(self)@ == old(self)@.push(input@),
            final(self).stages@[old(self).count as int] == *input,
            forall|k: int|
                0 <= k < MAX_STAGES && k != old(self).count ==> #[trigger] final(self).stages@[k]
                    == old(self).stages@[k],
    {
        let ghost before = self@;
        self.stages[self.count] = *input;
        self.count = self.count + 1;
        assert(self@ =~= before.push(input@));
    }

    /// The stage at `i`, or the newest stage where `i` is past the end.
    pub fn get_stage(&self, i: usize) -> (r: [u32; N])
        requires
            self.wf(),
            self.count > 0,
        ensures
            r@ == self@[clamped(i as int, self.count as int)],
    {
        self.stages[if i < self.count {
            i
        } else {
            self.count - 1
        }]
    }
}

/// A read at or past the end of a recording gives the same stage as a read of
/// its last index.
pub proof fn lemma_read_past_end<const MAX_STAGES: usize>(rec: SortRecording<MAX_STAGES>, i: int)
    requires
        rec.wf(),
        rec.count > 0,
        i >= rec.count,
    ensures
        rec@[clamped(i, rec.count as int)] == rec@[clamped(rec.count - 1, rec.count as int)],
        rec@[clamped(i, rec.count as int)] == rec@.last(),
{
}

} // verus!
