use vstd::prelude::*;

use crate::recording::{
    N, QUADRATIC_SWAPS_STAGES, SortRecording, SortRecordingLinear, SortRecordingLinearCycleSort,
    SortRecordingQuadradtic, SortRecordingQuadraticQuickSort,
};

verus! {

broadcast use {
    vstd::seq_lib::to_multiset_update,
    vstd::seq_lib::to_multiset_contains,
    vstd::multiset::group_multiset_axioms,
};

/// Non-strict ascending order.
pub open spec fn sorted(s: Seq<u32>) -> bool {
    forall|i: int, j: int| 0 <= i < j < s.len() ==> s[i] <= s[j]
}

/// `s` with the values at `i` and `j` exchanged.
pub open spec fn swapped(s: Seq<u32>, i: int, j: int) -> Seq<u32> {
    s.update(i, s[j]).update(j, s[i])
}

/// `next` is `prev` with the values at two positions exchanged.
pub open spec fn swap_step(prev: Seq<u32>, next: Seq<u32>) -> bool {
    exists|i: int, j: int|
        0 <= i < prev.len() && 0 <= j < prev.len() && next == #[trigger] swapped(prev, i, j)
}

/// `s` with the values at `k - 1` and `k` exchanged.
pub open spec fn swapped_left(s: Seq<u32>, k: int) -> Seq<u32> {
    swapped(s, k - 1, k)
}

/// `next` is `prev` with one out-of-order pair of neighbours exchanged.
pub open spec fn adjacent_step(prev: Seq<u32>, next: Seq<u32>) -> bool {
    exists|k: int| 0 < k < prev.len() && prev[k - 1] > prev[k] && next == #[trigger] swapped_left(prev, k)
}

/// `s` with `v` written at `p`.
pub open spec fn written(s: Seq<u32>, p: int, v: u32) -> Seq<u32> {
    s.update(p, v)
}

/// `next` is `prev` with one position overwritten by a different value.
pub open spec fn write_step(prev: Seq<u32>, next: Seq<u32>) -> bool {
    exists|p: int, v: u32| 0 <= p < prev.len() && prev[p] != v && next == #[trigger] written(prev, p, v)
}

/// Every stage after the first overwrites one position of the one before.
pub open spec fn write_run(stages: Seq<Seq<u32>>) -> bool {
    forall|k: int| #![trigger stages[k]] 0 < k < stages.len() ==> write_step(stages[k - 1], stages[k])
}

/// Every stage after the first is an exchange of two positions of the one before.
pub open spec fn swap_run(stages: Seq<Seq<u32>>) -> bool {
    forall|k: int| #![trigger stages[k]] 0 < k < stages.len() ==> swap_step(stages[k - 1], stages[k])
}

/// Every stage after the first fixes one out-of-order pair of neighbours of the one before.
pub open spec fn adjacent_run(stages: Seq<Seq<u32>>) -> bool {
    forall|k: int| #![trigger stages[k]] 0 < k < stages.len() ==> adjacent_step(stages[k - 1], stages[k])
}

/// A complete recording of sorting `input` into `output`: it starts with the
/// input, ends with the output, and the output is the input in ascending order.
pub open spec fn sorts_to(stages: Seq<Seq<u32>>, input: Seq<u32>, output: Seq<u32>) -> bool {
    &&& stages.len() >= 1
    &&& stages[0] == input
    &&& stages.last() == output
    &&& sorted(output)
    &&& output.to_multiset() == input.to_multiset()
}

/// 1 where the pair at `i < j` is out of order, else 0.
pub open spec fn inv(s: Seq<u32>, i: int, j: int) -> int {
    if s[i] > s[j] {
        1
    } else {
        0
    }
}

/// Number of out-of-order pairs of a collection of five values.
pub open spec fn inversions(s: Seq<u32>) -> int {
    inv(s, 0, 1) + inv(s, 0, 2) + inv(s, 0, 3) + inv(s, 0, 4) + inv(s, 1, 2) + inv(s, 1, 3)
        + inv(s, 1, 4) + inv(s, 2, 3) + inv(s, 2, 4) + inv(s, 3, 4)
}

pub proof fn lemma_swap_multiset(s: Seq<u32>, i: int, j: int)
    requires
        0 <= i < s.len(),
        0 <= j < s.len(),
    ensures
        swapped(s, i, j).to_multiset() == s.to_multiset(),
{
    if i == j {
        assert(swapped(s, i, j) =~= s);
    } else {
        let m = s.to_multiset();
        let t = s.update(i, s[j]);
        assert(t.to_multiset() == m.insert(s[j]).remove(s[i]));
        assert(t[j] == s[j]);
        assert(swapped(s, i, j).to_multiset() == m.insert(s[j]).remove(s[i]).insert(s[i]).remove(
            s[j],
        ));
        assert(s.contains(s[i]));
        assert(m.contains(s[i]));
        assert(m.insert(s[j]).remove(s[i]).insert(s[i]) =~= m.insert(s[j]));
        assert(m.insert(s[j]).remove(s[j]) =~= m);
    }
}

pub proof fn lemma_inversions_bounds(s: Seq<u32>)
    requires
        s.len() == N,
    ensures
        0 <= inversions(s) <= 10,
        inversions(s) == 0 <==> sorted(s),
{
}

pub proof fn lemma_adjacent_swap_inversions(s: Seq<u32>, k: int)
    requires
        s.len() == N,
        0 < k < N,
        s[k - 1] > s[k],
    ensures
        inversions(swapped(s, k - 1, k)) == inversions(s) - 1,
{
}

/// Whether `input` is in non-strict ascending order.
pub fn is_sorted(input: &[u32; N]) -> (r: bool)
    ensures
        r == sorted(input@),
{
    let mut i: usize = 0;
    while i < N - 1
        invariant
            i <= N - 1,
            forall|p: int| 0 <= p < i ==> #[trigger] input@[p] <= input@[p + 1],
        decreases N - 1 - i,
    {
        if input[i] > input[i + 1] {
            return false;
        }
        i += 1;
    }
    assert forall|p: int, q: int| 0 <= p < q < N implies input@[p] <= input@[q] by {
        lemma_chain(input@, p, q);
    }
    true
}

proof fn lemma_chain(s: Seq<u32>, p: int, q: int)
    requires
        0 <= p <= q < s.len(),
        forall|k: int| 0 <= k < q ==> #[trigger] s[k] <= s[k + 1],
    ensures
        s[p] <= s[q],
    decreases q - p,
{
    if p < q {
        lemma_chain(s, p, q - 1);
        assert(s[q - 1] <= s[q]);
    }
}

/// Exchanges the values at `i` and `j`.
fn swap_values(a: &mut [u32; N], i: usize, j: usize)
    requires
        i < N,
        j < N,
    ensures
        final(a)@ == swapped(old(a)@, i as int, j as int),
        final(a)@.to_multiset() == old(a)@.to_multiset(),
{
    proof {
        lemma_swap_multiset(a@, i as int, j as int);
    }
    let t = a[i];
    a[i] = a[j];
    a[j] = t;
    assert(a@ =~= swapped(old(a)@, i as int, j as int));
}

/// A pass of bubble sort over the neighbours `k - 1, k` for `k` in `i..n`,
/// exchanging where the left one is greater: the stages it records, the state
/// after it, and the last `k` exchanged (`last` where none is).
pub open spec fn bubble_pass(s: Seq<u32>, i: int, n: int, last: int) -> (Seq<Seq<u32>>, Seq<u32>, int)
    decreases n - i,
{
    if i >= n || i < 1 {
        (Seq::empty(), s, last)
    } else if s[i - 1] > s[i] {
        let t = swapped(s, i - 1, i);
        let r = bubble_pass(t, i + 1, n, i);
        (seq![t] + r.0, r.1, r.2)
    } else {
        bubble_pass(s, i + 1, n, last)
    }
}

/// The stages that bubble sort records on the first `n` positions of `s`:
/// a pass, then the passes on the positions before its last exchange.
pub open spec fn bubble_from(s: Seq<u32>, n: int) -> Seq<Seq<u32>>
    decreases n,
{
    if n <= 1 {
        Seq::empty()
    } else {
        let r = bubble_pass(s, 1, n, 0);
        if 0 <= r.2 < n {
            r.0 + bubble_from(r.1, r.2)
        } else {
            r.0
        }
    }
}

/// Every stage that bubble sort records for `s`, the input first.
pub open spec fn bubble_stages(s: Seq<u32>) -> Seq<Seq<u32>> {
    seq![s] + bubble_from(s, N as int)
}

proof fn lemma_bubble_pass_bound(s: Seq<u32>, i: int, n: int, last: int)
    requires
        0 <= last < n,
    ensures
        0 <= bubble_pass(s, i, n, last).2 < n,
    decreases n - i,
{
    if i >= n || i < 1 {
    } else if s[i - 1] > s[i] {
        lemma_bubble_pass_bound(swapped(s, i - 1, i), i + 1, n, i);
    } else {
        lemma_bubble_pass_bound(s, i + 1, n, last);
    }
}

/// Sorts by passes of neighbour exchanges, recording the state after each
/// exchange; each pass stops at the last exchange of the pass before.
#[verifier::rlimit(100)]
pub fn bubble_sort(input: &mut [u32; N]) -> (r: SortRecordingQuadradtic)
    ensures
        r.wf(),
        r@ == bubble_stages(old(input)@),
        sorts_to(r@, old(input)@, final(input)@),
        adjacent_run(r@),
        r@.len() == 1 + inversions(old(input)@),
{
    let ghost orig = input@;
    let mut sort_recording = SortRecordingQuadradtic::new();
    sort_recording.push(input);
    assert(sort_recording@ == seq![orig]);
    proof {
        lemma_inversions_bounds(orig);
    }
    let mut input_len: usize = N;
    while input_len > 1
        invariant
            input_len <= N,
            0 <= inversions(orig) <= 10,
            sort_recording.wf(),
            sort_recording@.len() >= 1,
            sort_recording@[0] == orig,
            sort_recording@.last() == input@,
            adjacent_run(sort_recording@),
            sort_recording@.len() - 1 + inversions(input@) == inversions(orig),
            input@.to_multiset() == orig.to_multiset(),
            forall|p: int, q: int| input_len <= p < q < N ==> input@[p] <= input@[q],
            forall|p: int, q: int| 0 <= p < input_len <= q < N ==> input@[p] <= input@[q],
            sort_recording@ + bubble_from(input@, input_len as int) == bubble_stages(orig),
        decreases input_len,
    {
        let ghost n = input_len as int;
        proof {
            lemma_bubble_pass_bound(input@, 1, n, 0);
        }
        let mut sorted_len: usize = 0;
        let mut i: usize = 1;
        while i < input_len
            invariant
                1 <= i <= input_len <= N,
                sorted_len < i,
                0 <= inversions(orig) <= 10,
                sort_recording.wf(),
                sort_recording@.len() >= 1,
                sort_recording@[0] == orig,
                sort_recording@.last() == input@,
                adjacent_run(sort_recording@),
                sort_recording@.len() - 1 + inversions(input@) == inversions(orig),
                input@.to_multiset() == orig.to_multiset(),
                forall|p: int, q: int| input_len <= p < q < N ==> input@[p] <= input@[q],
                forall|p: int, q: int| 0 <= p < input_len <= q < N ==> input@[p] <= input@[q],
                forall|k: int| 0 <= k < i ==> #[trigger] input@[k] <= input@[i - 1],
                forall|p: int, q: int| sorted_len <= p < q < i ==> input@[p] <= input@[q],
                forall|p: int, q: int| 0 <= p < sorted_len <= q < i ==> input@[p] <= input@[q],
                n == input_len as int,
                sort_recording@ + bubble_pass(input@, i as int, n, sorted_len as int).0 + bubble_from(
                    bubble_pass(input@, i as int, n, sorted_len as int).1,
                    bubble_pass(input@, i as int, n, sorted_len as int).2,
                ) == bubble_stages(orig),
            decreases input_len - i,
        {
            let ghost r0 = sort_recording@;
            if input[i - 1] > input[i] {
                let ghost prev = input@;
                proof {
                    lemma_adjacent_swap_inversions(prev, i as int);
                    lemma_inversions_bounds(swapped(prev, i - 1, i as int));
                }
                swap_values(input, i - 1, i);
                sort_recording.push(input);
                proof {
                    assert(input@ == swapped_left(prev, i as int));
                    assert(adjacent_step(prev, input@));
                    assert(adjacent_run(sort_recording@));
                    let rest = bubble_pass(input@, i + 1, n, i as int);
                    assert(bubble_pass(prev, i as int, n, sorted_len as int) == (
                    seq![input@] + rest.0, rest.1, rest.2));
                    assert(sort_recording@ + rest.0 =~= r0 + (seq![input@] + rest.0));
                }
                sorted_len = i;
            }
            i += 1;
        }
        input_len = sorted_len;
    }
    sort_recording
}

/// The value at `j` of `s` moved left past its greater neighbours: the stages
/// recorded, one per exchange, and the state after the last.
pub open spec fn insertion_shift(s: Seq<u32>, j: int) -> (Seq<Seq<u32>>, Seq<u32>)
    decreases j,
{
    if 0 < j < N && s[j - 1] > s[j] {
        let t = swapped(s, j - 1, j);
        let r = insertion_shift(t, j - 1);
        (seq![t] + r.0, r.1)
    } else {
        (Seq::empty(), s)
    }
}

/// The stages that insertion sort records moving the values at `i..N` in turn.
pub open spec fn insertion_from(s: Seq<u32>, i: int) -> Seq<Seq<u32>>
    decreases N - i,
{
    if i >= N || i < 1 {
        Seq::empty()
    } else {
        let r = insertion_shift(s, i);
        r.0 + insertion_from(r.1, i + 1)
    }
}

/// Every stage that insertion sort records for `s`, the input first.
pub open spec fn insertion_stages(s: Seq<u32>) -> Seq<Seq<u32>> {
    seq![s] + insertion_from(s, 1)
}

/// Sorts by moving each value left past its larger neighbours, recording the
/// state after each exchange.
pub fn insertion_sort(input: &mut [u32; N]) -> (r: SortRecordingQuadradtic)
    ensures
        r.wf(),
        r@ == insertion_stages(old(input)@),
        sorts_to(r@, old(input)@, final(input)@),
        adjacent_run(r@),
        r@.len() == 1 + inversions(old(input)@),
{
    let mut sort_recording = SortRecordingQuadradtic::new();
    sort_recording.push(input);
    insert_each(input, &mut sort_recording);
    sort_recording
}

#[verifier::rlimit(100)]
/// The exchanges of insertion sort, appended to a recording that holds the
/// input alone.
fn insert_each<const MAX_STAGES: usize>(
    input: &mut [u32; N],
    sort_recording: &mut SortRecording<MAX_STAGES>,
)
    requires
        MAX_STAGES >= QUADRATIC_SWAPS_STAGES,
        old(sort_recording).wf(),
        old(sort_recording)@ == seq![old(input)@],
    ensures
        final(sort_recording).wf(),
        final(sort_recording)@ == insertion_stages(old(input)@),
        sorts_to(final(sort_recording)@, old(input)@, final(input)@),
        adjacent_run(final(sort_recording)@),
        final(sort_recording)@.len() == 1 + inversions(old(input)@),
{
    let ghost orig = input@;
    proof {
        lemma_inversions_bounds(orig);
    }
    let mut i: usize = 1;
    assert(sort_recording@ + insertion_from(input@, 1) == insertion_stages(orig));
    while i < N
        invariant
            MAX_STAGES >= QUADRATIC_SWAPS_STAGES,
            1 <= i <= N,
            0 <= inversions(orig) <= 10,
            sort_recording.wf(),
            sort_recording@.len() >= 1,
            sort_recording@[0] == orig,
            sort_recording@.last() == input@,
            adjacent_run(sort_recording@),
            sort_recording@.len() - 1 + inversions(input@) == inversions(orig),
            input@.to_multiset() == orig.to_multiset(),
            forall|p: int, q: int| 0 <= p < q < i ==> input@[p] <= input@[q],
            sort_recording@ + insertion_from(input@, i as int) == insertion_stages(orig),
        decreases N - i,
    {
        shift_left(input, i, sort_recording, Ghost(orig));
        i += 1;
    }
    proof {
        lemma_inversions_bounds(input@);
    }
}

#[verifier::rlimit(100)]
#[verifier::spinoff_prover]
/// Moves the value at `i` left past its greater neighbours, recording each
/// exchange.
fn shift_left<const MAX_STAGES: usize>(
    input: &mut [u32; N],
    i: usize,
    sort_recording: &mut SortRecording<MAX_STAGES>,
    orig: Ghost<Seq<u32>>,
)
    requires
        MAX_STAGES >= QUADRATIC_SWAPS_STAGES,
        1 <= i < N,
        0 <= inversions(orig@) <= 10,
        old(sort_recording).wf(),
        old(sort_recording)@.len() >= 1,
        old(sort_recording)@[0] == orig@,
        old(sort_recording)@.last() == old(input)@,
        adjacent_run(old(sort_recording)@),
        old(sort_recording)@.len() - 1 + inversions(old(input)@) == inversions(orig@),
        old(input)@.to_multiset() == orig@.to_multiset(),
        forall|p: int, q: int| 0 <= p < q < i ==> old(input)@[p] <= old(input)@[q],
        old(sort_recording)@ + insertion_from(old(input)@, i as int) == insertion_stages(orig@),
    ensures
        final(sort_recording).wf(),
        final(sort_recording)@.len() >= 1,
        final(sort_recording)@[0] == orig@,
        final(sort_recording)@.last() == final(input)@,
        adjacent_run(final(sort_recording)@),
        final(sort_recording)@.len() - 1 + inversions(final(input)@) == inversions(orig@),
        final(input)@.to_multiset() == orig@.to_multiset(),
        forall|p: int, q: int| 0 <= p < q <= i ==> final(input)@[p] <= final(input)@[q],
        final(sort_recording)@ + insertion_from(final(input)@, i + 1) == insertion_stages(orig@),
{
    let ghost orig = orig@;
    let mut j: usize = i;
    while j > 0 && input[j - 1] > input[j]
        invariant
            MAX_STAGES >= QUADRATIC_SWAPS_STAGES,
            1 <= i < N,
            j <= i,
            0 <= inversions(orig) <= 10,
            sort_recording.wf(),
            sort_recording@.len() >= 1,
            sort_recording@[0] == orig,
            sort_recording@.last() == input@,
            adjacent_run(sort_recording@),
            sort_recording@.len() - 1 + inversions(input@) == inversions(orig),
            input@.to_multiset() == orig.to_multiset(),
            forall|p: int, q: int| 0 <= p < q < j ==> input@[p] <= input@[q],
            forall|p: int, q: int| j < p < q <= i ==> input@[p] <= input@[q],
            forall|p: int, q: int| 0 <= p < j < q <= i ==> input@[p] <= input@[q],
            forall|q: int| j < q <= i ==> input@[j as int] < input@[q],
            sort_recording@ + insertion_shift(input@, j as int).0 + insertion_from(
                insertion_shift(input@, j as int).1,
                i + 1,
            ) == insertion_stages(orig),
        decreases j,
    {
        let ghost prev = input@;
        let ghost r0 = sort_recording@;
        proof {
            lemma_adjacent_swap_inversions(prev, j as int);
            lemma_inversions_bounds(swapped(prev, j - 1, j as int));
        }
        swap_values(input, j - 1, j);
        sort_recording.push(input);
        proof {
            assert(input@ == swapped_left(prev, j as int));
            assert(adjacent_step(prev, input@));
            assert(adjacent_run(sort_recording@));
            let rest = insertion_shift(input@, j - 1);
            assert(insertion_shift(prev, j as int) == (seq![input@] + rest.0, rest.1));
            assert(sort_recording@ + rest.0 =~= r0 + (seq![input@] + rest.0));
        }
        j -= 1;
    }
}

/// The first position of the smallest value of `s` in `i..j`.
pub open spec fn first_min(s: Seq<u32>, i: int, j: int) -> int
    decreases j - i,
{
    if j <= i + 1 {
        i
    } else {
        let m = first_min(s, i, j - 1);
        if s[j - 1] < s[m] {
            j - 1
        } else {
            m
        }
    }
}

/// The stages that selection sort records from position `i` on: where the
/// first smallest value of `i..N` is not at `i`, the two are exchanged.
pub open spec fn selection_from(s: Seq<u32>, i: int) -> Seq<Seq<u32>>
    decreases N - i,
{
    if i >= N {
        Seq::empty()
    } else {
        let m = first_min(s, i, N as int);
        if m != i {
            let t = swapped(s, i, m);
            seq![t] + selection_from(t, i + 1)
        } else {
            selection_from(s, i + 1)
        }
    }
}

/// Every stage that selection sort records for `s`, the input first.
pub open spec fn selection_stages(s: Seq<u32>) -> Seq<Seq<u32>> {
    seq![s] + selection_from(s, 0)
}

/// Sorts by exchanging the smallest remaining value into each position in
/// turn, recording the state after each exchange that moves a value. Of equal
/// smallest values the first is taken.
pub fn selection_sort(input: &mut [u32; N]) -> (r: SortRecordingLinear)
    ensures
        r.wf(),
        r@ == selection_stages(old(input)@),
        sorts_to(r@, old(input)@, final(input)@),
        swap_run(r@),
{
    let ghost orig = input@;
    let mut sort_recording = SortRecordingLinear::new();
    sort_recording.push(input);
    assert(sort_recording@ == seq![orig]);
    let input_length: usize = N;
    let mut i: usize = 0;
    while i < input_length
        invariant
            input_length == N,
            i <= N,
            sort_recording.wf(),
            1 <= sort_recording@.len() <= i + 1,
            sort_recording@[0] == orig,
            sort_recording@.last() == input@,
            swap_run(sort_recording@),
            sort_recording@ + selection_from(input@, i as int) == selection_stages(orig),
            input@.to_multiset() == orig.to_multiset(),
            forall|p: int, q: int| 0 <= p < q < i ==> input@[p] <= input@[q],
            forall|p: int, q: int| 0 <= p < i <= q < N ==> input@[p] <= input@[q],
        decreases N - i,
    {
        let ghost s0 = input@;
        let ghost r0 = sort_recording@;
        let mut min_i: usize = i;
        let mut j: usize = i + 1;
        while j < input_length
            invariant
                input_length == N,
                i < N,
                i <= min_i < N,
                min_i < j <= N,
                min_i == first_min(input@, i as int, j as int),
                forall|k: int| i <= k < j ==> input@[min_i as int] <= #[trigger] input@[k],
            decreases N - j,
        {
            if input[j] < input[min_i] {
                min_i = j;
            }
            j += 1;
        }
        if min_i != i {
            let ghost prev = input@;
            swap_values(input, i, min_i);
            sort_recording.push(input);
            proof {
                assert(input@ == swapped(prev, i as int, min_i as int));
                assert(swap_step(prev, input@));
                assert(swap_run(sort_recording@));
                assert(selection_from(s0, i as int) == seq![input@] + selection_from(input@, i + 1));
                assert(sort_recording@ + selection_from(input@, i + 1) =~= r0 + selection_from(
                    s0,
                    i as int,
                ));
            }
        } else {
            assert(selection_from(s0, i as int) == selection_from(s0, i + 1));
        }
        i += 1;
    }
    sort_recording
}

/// The value of `a` at `k` is one that `b` holds somewhere in `lo..=hi`.
pub open spec fn drawn_at(a: Seq<u32>, b: Seq<u32>, lo: int, hi: int, k: int) -> bool {
    exists|j: int| #![trigger b[j]] lo <= j && j <= hi && a[k] == b[j]
}

/// 1 where `b` holds, else 0.
pub open spec fn ind(b: bool) -> int {
    if b {
        1
    } else {
        0
    }
}

/// Number of positions in `lo..hi` of a five-value collection that hold a value below `v`.
#[verifier::opaque]
pub open spec fn below_between(a: Seq<u32>, lo: int, hi: int, v: u32) -> int {
    ind(lo <= 0 < hi && a[0] < v) + ind(lo <= 1 < hi && a[1] < v) + ind(lo <= 2 < hi && a[2] < v)
        + ind(lo <= 3 < hi && a[3] < v) + ind(lo <= 4 < hi && a[4] < v)
}

/// Number of positions in `lo..hi` of a five-value collection that hold `v`.
#[verifier::opaque]
pub open spec fn equal_between(a: Seq<u32>, lo: int, hi: int, v: u32) -> int {
    ind(lo <= 0 < hi && a[0] == v) + ind(lo <= 1 < hi && a[1] == v) + ind(lo <= 2 < hi && a[2] == v)
        + ind(lo <= 3 < hi && a[3] == v) + ind(lo <= 4 < hi && a[4] == v)
}

/// Position `p` lies in the run of positions that `v` takes once `w` is sorted
/// from `c` on.
pub open spec fn in_place(w: Seq<u32>, c: int, p: int, v: u32) -> bool {
    c + below_between(w, c, 5, v) <= p < c + below_between(w, c, 5, v) + equal_between(w, c, 5, v)
}

/// Number of positions from `c` on whose value in `a` is not in its place in
/// `w` sorted from `c` on.
#[verifier::opaque]
pub open spec fn misplaced(a: Seq<u32>, w: Seq<u32>, c: int) -> int {
    ind(c <= 0 && !in_place(w, c, 0, a[0])) + ind(c <= 1 && !in_place(w, c, 1, a[1])) + ind(
        c <= 2 && !in_place(w, c, 2, a[2]),
    ) + ind(c <= 3 && !in_place(w, c, 3, a[3])) + ind(c <= 4 && !in_place(w, c, 4, a[4]))
}

proof fn lemma_count_bounds(a: Seq<u32>, w: Seq<u32>, c: int, v: u32)
    requires
        0 <= c,
    ensures
        0 <= below_between(a, c, 5, v),
        0 <= equal_between(a, c, 5, v),
        0 <= below_between(a, c + 1, 5, v),
        0 <= equal_between(a, c + 1, 5, v),
        below_between(a, c, 5, v) + equal_between(a, c, 5, v) <= 5 - c || c > 5,
        0 <= misplaced(a, w, c),
{
    reveal(below_between);
    reveal(equal_between);
    reveal(misplaced);
}

/// From `p` on, the first position of `s` that does not hold `item` (`N` if none).
pub open spec fn skip_from(s: Seq<u32>, item: u32, p: int) -> int
    decreases N - p,
{
    if 0 <= p < N && s[p] == item {
        skip_from(s, item, p + 1)
    } else {
        p
    }
}

/// The writes of a cycle that starts at `c`, with `item` in hand and bound for
/// `target` before stepping over its equals; each write takes the value found
/// in hand, until a write lands on `c`; at most `fuel` writes. The stages
/// recorded and the state after them.
pub open spec fn cycle_writes(s: Seq<u32>, c: int, item: u32, target: int, fuel: nat) -> (
    Seq<Seq<u32>>,
    Seq<u32>,
)
    decreases fuel,
{
    let p = skip_from(s, item, target);
    if fuel == 0 || !(0 <= p < N) {
        (Seq::empty(), s)
    } else {
        let t = s.update(p, item);
        if p == c {
            (seq![t], t)
        } else {
            let d = s[p];
            let r = cycle_writes(t, c, d, c + below_between(t, c + 1, 5, d), (fuel - 1) as nat);
            (seq![t] + r.0, r.1)
        }
    }
}

/// The cycle that starts at `c`: nothing where the value there is already in
/// place, else its writes (never more than `N`).
pub open spec fn cycle_round(s: Seq<u32>, c: int) -> (Seq<Seq<u32>>, Seq<u32>) {
    let target = c + below_between(s, c + 1, 5, s[c]);
    if target == c {
        (Seq::empty(), s)
    } else {
        cycle_writes(s, c, s[c], target, (N + 1) as nat)
    }
}

/// The stages that cycle sort records for the cycles starting at `c..N - 1`.
pub open spec fn cycle_from(s: Seq<u32>, c: int) -> Seq<Seq<u32>>
    decreases N - c,
{
    if c >= N - 1 {
        Seq::empty()
    } else {
        let r = cycle_round(s, c);
        r.0 + cycle_from(r.1, c + 1)
    }
}

/// Every stage that cycle sort records for `s`, the input first.
pub open spec fn cycle_stages(s: Seq<u32>) -> Seq<Seq<u32>> {
    seq![s] + cycle_from(s, 0)
}

proof fn lemma_cycle_writes_step(a: Seq<u32>, c: int, it: u32, f: nat, p: int)
    requires
        f > 0,
        0 <= p < N,
        p == skip_from(a, it, c + below_between(a, c + 1, 5, it)),
    ensures
        p == c ==> cycle_writes(a, c, it, c + below_between(a, c + 1, 5, it), f) == (
        seq![a.update(p, it)], a.update(p, it)),
        p != c ==> cycle_writes(a, c, it, c + below_between(a, c + 1, 5, it), f) == (
        seq![a.update(p, it)] + cycle_writes(
            a.update(p, it),
            c,
            a[p],
            c + below_between(a.update(p, it), c + 1, 5, a[p]),
            (f - 1) as nat,
        ).0, cycle_writes(
            a.update(p, it),
            c,
            a[p],
            c + below_between(a.update(p, it), c + 1, 5, a[p]),
            (f - 1) as nat,
        ).1),
{
}

/// Where cycle sort puts `item`: `cycle_start` plus the number of smaller
/// values after it.
fn cycle_position(input: &[u32; N], cycle_start: usize, item: u32) -> (pos: usize)
    requires
        cycle_start < N,
    ensures
        pos == cycle_start + below_between(input@, cycle_start + 1, 5, item),
        cycle_start <= pos < N,
{
    let mut pos: usize = cycle_start;
    let mut i: usize = cycle_start + 1;
    proof {
        reveal(below_between);
    }
    while i < N
        invariant
            cycle_start < i <= N,
            cycle_start <= pos < i,
            pos == cycle_start + below_between(input@, cycle_start + 1, i as int, item),
        decreases N - i,
    {
        proof {
            reveal(below_between);
        }
        if input[i] < item {
            pos += 1;
        }
        i += 1;
    }
    proof {
        reveal(below_between);
    }
    pos
}

/// Steps from `pos` over the values equal to `item`, so that a value that is
/// already in place is not overwritten by its equal.
fn skip_equal(input: &[u32; N], c: usize, item: u32, pos: usize) -> (p: usize)
    requires
        c < N,
        pos == c + below_between(input@, c + 1, 5, item),
        pos == c ==> input@[c as int] != item,
        c + below_between(input@, c + 1, 5, item) + equal_between(input@, c + 1, 5, item) < 5,
    ensures
        c <= pos <= p < N,
        input@[p as int] != item,
        p <= c + below_between(input@, c + 1, 5, item) + equal_between(input@, c + 1, 5, item),
        p == skip_from(input@, item, pos as int),
{
    proof {
        reveal(below_between);
        reveal(equal_between);
    }
    let mut p = pos;
    while item == input[p]
        invariant
            c < N,
            c <= pos <= p < N,
            pos == c + below_between(input@, c + 1, 5, item),
            pos == c ==> input@[c as int] != item,
            c + below_between(input@, c + 1, 5, item) + equal_between(input@, c + 1, 5, item) < 5,
            p - pos <= equal_between(input@, c + 1, 5, item),
            forall|q: int| pos <= q < p ==> #[trigger] input@[q] == item,
            skip_from(input@, item, p as int) == skip_from(input@, item, pos as int),
        decreases N - p,
    {
        assert(equal_between(input@, c + 1, 5, item) >= p + 1 - pos) by {
            reveal(equal_between);
        }
        p += 1;
    }
    p
}

/// Writes `item` at `pos`, records the new state and returns the value that was there.
fn place(
    input: &mut [u32; N],
    pos: usize,
    item: u32,
    sort_recording: &mut SortRecordingLinearCycleSort,
) -> (displaced: u32)
    requires
        pos < N,
        old(input)@[pos as int] != item,
        old(sort_recording).wf(),
        old(sort_recording).count < 6,
        old(sort_recording)@.len() >= 1,
        old(sort_recording)@.last() == old(input)@,
        write_run(old(sort_recording)@),
    ensures
        displaced == old(input)@[pos as int],
        final(input)@ == old(input)@.update(pos as int, item),
        final(sort_recording).wf(),
        final(sort_recording).count == old(sort_recording).count + 1,
        final(sort_recording)@ == old(sort_recording)@.push(final(input)@),
        final(sort_recording)@.len() >= 1,
        final(sort_recording)@[0] == old(sort_recording)@[0],
        final(sort_recording)@.last() == final(input)@,
        write_run(final(sort_recording)@),
{
    let ghost prev = input@;
    let tmp = input[pos];
    input[pos] = item;
    sort_recording.push(input);
    proof {
        assert(input@ == written(prev, pos as int, item));
        assert(write_step(prev, input@));
        assert(write_run(sort_recording@));
    }
    tmp
}

/// The counts that a cycle keeps, carried over one write of `item` at `pos`
/// that displaced `displaced`.
#[verifier::rlimit(100)]
#[verifier::spinoff_prover]
proof fn lemma_after_write(a: Seq<u32>, b: Seq<u32>, w: Seq<u32>, ci: int, pos: int, item: u32, displaced: u32)
    requires
        a.len() == N,
        w.len() == N,
        0 <= ci < 4,
        ci <= pos < N,
        b == a.update(pos, item),
        displaced == a[pos],
        in_place(w, ci, pos, item),
        !in_place(w, ci, pos, displaced),
        forall|v: u32| #[trigger] below_between(a, ci + 1, 5, v) + ind(item < v) == below_between(w, ci, 5, v),
        forall|v: u32| #[trigger] equal_between(a, ci + 1, 5, v) + ind(item == v) == equal_between(w, ci, 5, v),
    ensures
        misplaced(b, w, ci) == misplaced(a, w, ci) - 1,
        0 <= misplaced(b, w, ci),
        pos != ci ==> forall|v: u32|
            #[trigger] below_between(b, ci + 1, 5, v) + ind(displaced < v) == below_between(w, ci, 5, v),
        pos != ci ==> forall|v: u32|
            #[trigger] equal_between(b, ci + 1, 5, v) + ind(displaced == v) == equal_between(w, ci, 5, v),
        pos == ci ==> forall|v: u32| #[trigger] below_between(w, ci, 5, v) == below_between(b, ci, 5, v),
        pos == ci ==> forall|v: u32| #[trigger] equal_between(w, ci, 5, v) == equal_between(b, ci, 5, v),
        pos == ci ==> below_between(b, ci + 1, 5, b[ci]) == below_between(a, ci + 1, 5, item),
{
    assert(misplaced(b, w, ci) == misplaced(a, w, ci) - 1) by {
        reveal(misplaced);
    }
    lemma_count_bounds(b, w, ci, item);
    if pos != ci {
        assert forall|v: u32| #[trigger]
            below_between(b, ci + 1, 5, v) + ind(displaced < v) == below_between(w, ci, 5, v) by {
            assert(below_between(a, ci + 1, 5, v) + ind(item < v) == below_between(w, ci, 5, v));
            assert(below_between(b, ci + 1, 5, v) == below_between(a, ci + 1, 5, v) - ind(displaced < v) + ind(item < v)) by {
                reveal(below_between);
            }
        }
        assert forall|v: u32| #[trigger]
            equal_between(b, ci + 1, 5, v) + ind(displaced == v) == equal_between(w, ci, 5, v) by {
            assert(equal_between(a, ci + 1, 5, v) + ind(item == v) == equal_between(w, ci, 5, v));
            assert(equal_between(b, ci + 1, 5, v) == equal_between(a, ci + 1, 5, v) - ind(displaced == v) + ind(item == v)) by {
                reveal(equal_between);
            }
        }
    } else {
        assert forall|v: u32| #[trigger] below_between(w, ci, 5, v) == below_between(b, ci, 5, v) by {
            assert(below_between(a, ci + 1, 5, v) + ind(item < v) == below_between(w, ci, 5, v));
            assert(below_between(b, ci, 5, v) == below_between(a, ci + 1, 5, v) + ind(item < v)) by {
                reveal(below_between);
            }
        }
        assert forall|v: u32| #[trigger] equal_between(w, ci, 5, v) == equal_between(b, ci, 5, v) by {
            assert(equal_between(a, ci + 1, 5, v) + ind(item == v) == equal_between(w, ci, 5, v));
            assert(equal_between(b, ci, 5, v) == equal_between(a, ci + 1, 5, v) + ind(item == v)) by {
                reveal(equal_between);
            }
        }
        assert(below_between(b, ci + 1, 5, b[ci]) == below_between(a, ci + 1, 5, item)) by {
            reveal(below_between);
        }
    }
}

/// One write of a cycle that starts at `c`: `item`, whose count of smaller
/// values puts it at `pos`, goes to the first place from `pos` that does not
/// already hold its value; the place and the value found there are returned.
#[verifier::rlimit(100)]
fn cycle_step(
    input: &mut [u32; N],
    c: usize,
    item: u32,
    pos: usize,
    sort_recording: &mut SortRecordingLinearCycleSort,
    w: Ghost<Seq<u32>>,
) -> (r: (usize, u32))
    requires
        c < N - 1,
        w@.len() == N,
        pos == c + below_between(old(input)@, c + 1, 5, item),
        old(sort_recording).wf(),
        old(sort_recording)@.len() >= 1,
        old(sort_recording)@.last() == old(input)@,
        write_run(old(sort_recording)@),
        old(sort_recording).count - 1 + misplaced(old(input)@, w@, c as int) <= 5,
        below_between(w@, c as int, 5, w@[c as int]) > 0,
        old(input)@[c as int] == w@[c as int],
        forall|v: u32|
            #[trigger] below_between(old(input)@, c + 1, 5, v) + ind(item < v) == below_between(w@, c as int, 5, v),
        forall|v: u32|
            #[trigger] equal_between(old(input)@, c + 1, 5, v) + ind(item == v) == equal_between(w@, c as int, 5, v),
    ensures
        final(sort_recording).wf(),
        final(sort_recording)@.len() >= 1,
        final(sort_recording)@[0] == old(sort_recording)@[0],
        final(sort_recording)@.last() == final(input)@,
        write_run(final(sort_recording)@),
        final(sort_recording).count - 1 + misplaced(final(input)@, w@, c as int) <= 5,
        final(sort_recording).count - 1 + misplaced(final(input)@, w@, c as int) == old(sort_recording).count
            - 1 + misplaced(old(input)@, w@, c as int),
        0 <= misplaced(final(input)@, w@, c as int) < misplaced(old(input)@, w@, c as int),
        forall|p: int| 0 <= p < c ==> #[trigger] final(input)@[p] == old(input)@[p],
        c <= r.0 < N,
        r.0 == skip_from(old(input)@, item, pos as int),
        final(input)@ == old(input)@.update(r.0 as int, item),
        r.1 == old(input)@[r.0 as int],
        final(sort_recording)@ == old(sort_recording)@.push(final(input)@),
        r.0 != c ==> final(input)@[c as int] == w@[c as int],
        r.0 != c ==> forall|v: u32|
            #[trigger] below_between(final(input)@, c + 1, 5, v) + ind(r.1 < v) == below_between(w@, c as int, 5, v),
        r.0 != c ==> forall|v: u32|
            #[trigger] equal_between(final(input)@, c + 1, 5, v) + ind(r.1 == v) == equal_between(w@, c as int, 5, v),
        r.0 == c ==> forall|v: u32|
            #[trigger] below_between(w@, c as int, 5, v) == below_between(final(input)@, c as int, 5, v),
        r.0 == c ==> forall|v: u32|
            #[trigger] equal_between(w@, c as int, 5, v) == equal_between(final(input)@, c as int, 5, v),
        r.0 == c ==> below_between(final(input)@, c + 1, 5, final(input)@[c as int]) == 0,
{
    let ghost a = input@;
    let ghost ci = c as int;
    let ghost w = w@;
    proof {
        lemma_count_bounds(w, w, ci, item);
        lemma_count_bounds(a, w, ci, item);
        assert(below_between(a, ci + 1, 5, item) + ind(item < item) == below_between(w, ci, 5, item));
        assert(equal_between(a, ci + 1, 5, item) + ind(item == item) == equal_between(w, ci, 5, item));
        if pos == c && a[ci] == item {
            assert(below_between(w, ci, 5, item) == 0);
        }
    }
    let pos = skip_equal(input, c, item, pos);
    let ghost y = a[pos as int];
    proof {
        lemma_count_bounds(w, w, ci, y);
        assert(below_between(a, ci + 1, 5, y) + ind(item < y) == below_between(w, ci, 5, y));
        assert(equal_between(a, ci + 1, 5, y) + ind(item == y) == equal_between(w, ci, 5, y));
        assert(in_place(w, ci, pos as int, item));
        if pos == c {
            assert(y == w[ci]);
        } else if y < item {
            assert(below_between(w, ci, 5, item) >= below_between(w, ci, 5, y) + equal_between(w, ci, 5, y)) by {
                reveal(below_between);
                reveal(equal_between);
            }
        } else {
            assert(below_between(w, ci, 5, y) >= below_between(w, ci, 5, item) + equal_between(w, ci, 5, item)) by {
                reveal(below_between);
                reveal(equal_between);
            }
        }
        assert(!in_place(w, ci, pos as int, y));
        assert(misplaced(a, w, ci) >= 1) by {
            reveal(misplaced);
        }
    }
    let displaced = place(input, pos, item, sort_recording);
    proof {
        lemma_after_write(a, input@, w, ci, pos as int, item, displaced);
    }
    (pos, displaced)
}

/// The cycle that starts at `c`: the value at `c` and every value it
/// displaces go straight to their places, until a value lands on `c`.
fn run_cycle(input: &mut [u32; N], c: usize, sort_recording: &mut SortRecordingLinearCycleSort)
    requires
        c < N - 1,
        old(sort_recording).wf(),
        old(sort_recording)@.len() >= 1,
        old(sort_recording)@.last() == old(input)@,
        write_run(old(sort_recording)@),
        old(sort_recording).count - 1 + misplaced(old(input)@, old(input)@, c as int) <= 5,
    ensures
        final(sort_recording).wf(),
        final(sort_recording)@.len() >= 1,
        final(sort_recording)@[0] == old(sort_recording)@[0],
        final(sort_recording)@.last() == final(input)@,
        write_run(final(sort_recording)@),
        final(sort_recording).count - 1 + misplaced(final(input)@, old(input)@, c as int) == old(
            sort_recording,
        ).count - 1 + misplaced(old(input)@, old(input)@, c as int),
        forall|p: int| 0 <= p < c ==> #[trigger] final(input)@[p] == old(input)@[p],
        forall|v: u32|
            #[trigger] below_between(old(input)@, c as int, 5, v) == below_between(final(input)@, c as int, 5, v),
        forall|v: u32|
            #[trigger] equal_between(old(input)@, c as int, 5, v) == equal_between(final(input)@, c as int, 5, v),
        below_between(final(input)@, c + 1, 5, final(input)@[c as int]) == 0,
        final(sort_recording)@ == old(sort_recording)@ + cycle_round(old(input)@, c as int).0,
        final(input)@ == cycle_round(old(input)@, c as int).1,
{
    let ghost w = input@;
    let ghost ci = c as int;
    let ghost r0 = sort_recording@;
    let item = input[c];
    let pos = cycle_position(input, c, item);
    proof {
        assert forall|v: u32| #[trigger]
            below_between(w, ci + 1, 5, v) + ind(item < v) == below_between(w, ci, 5, v) by {
            reveal(below_between);
        }
        assert forall|v: u32| #[trigger]
            equal_between(w, ci + 1, 5, v) + ind(item == v) == equal_between(w, ci, 5, v) by {
            reveal(equal_between);
        }
        assert(below_between(w, ci + 1, 5, w[ci]) + ind(item < w[ci]) == below_between(w, ci, 5, w[ci]));
        lemma_count_bounds(w, w, ci, item);
    }
    if pos == c {
        assert(sort_recording@ =~= r0 + Seq::<Seq<u32>>::empty());
        return;
    }
    let ghost m = cycle_round(w, ci);
    let ghost mut fuel: nat = 6;
    let ghost a = input@;
    let ghost it = item;
    proof {
        assert(m == cycle_writes(w, ci, it, ci + below_between(w, ci + 1, 5, it), fuel));
        lemma_count_bounds(w, w, ci, it);
    }
    let (mut pos, mut item) = cycle_step(input, c, item, pos, sort_recording, Ghost(w));
    proof {
        lemma_cycle_writes_step(a, ci, it, fuel, pos as int);
        fuel = 5;
        assert(sort_recording@ =~= r0 + seq![input@]);
    }
    while pos != c
        invariant
            c < N - 1,
            ci == c as int,
            w.len() == N,
            pos < N,
            sort_recording.wf(),
            sort_recording@.len() >= 1,
            sort_recording@[0] == r0[0],
            sort_recording@.last() == input@,
            write_run(sort_recording@),
            sort_recording.count - 1 + misplaced(input@, w, ci) <= 5,
            sort_recording.count - 1 + misplaced(input@, w, ci) == r0.len() - 1 + misplaced(w, w, ci),
            misplaced(input@, w, ci) >= 0,
            forall|p: int| 0 <= p < c ==> #[trigger] input@[p] == w[p],
            below_between(w, ci, 5, w[ci]) > 0,
            pos != c ==> input@[ci] == w[ci],
            pos != c ==> forall|v: u32|
                #[trigger] below_between(input@, ci + 1, 5, v) + ind(item < v) == below_between(w, ci, 5, v),
            pos != c ==> forall|v: u32|
                #[trigger] equal_between(input@, ci + 1, 5, v) + ind(item == v) == equal_between(w, ci, 5, v),
            pos == c ==> forall|v: u32|
                #[trigger] below_between(w, ci, 5, v) == below_between(input@, ci, 5, v),
            pos == c ==> forall|v: u32|
                #[trigger] equal_between(w, ci, 5, v) == equal_between(input@, ci, 5, v),
            pos == c ==> below_between(input@, ci + 1, 5, input@[ci]) == 0,
            m == cycle_round(w, ci),
            pos != c ==> fuel >= misplaced(input@, w, ci) + 1,
            pos != c ==> sort_recording@ + cycle_writes(
                input@,
                ci,
                item,
                ci + below_between(input@, ci + 1, 5, item),
                fuel,
            ).0 == r0 + m.0,
            pos != c ==> cycle_writes(
                input@,
                ci,
                item,
                ci + below_between(input@, ci + 1, 5, item),
                fuel,
            ).1 == m.1,
            pos == c ==> sort_recording@ == r0 + m.0 && input@ == m.1,
        decreases misplaced(input@, w, ci),
    {
        let ghost a = input@;
        let ghost it = item;
        let ghost rr = sort_recording@;
        let target = cycle_position(input, c, item);
        let step = cycle_step(input, c, item, target, sort_recording, Ghost(w));
        proof {
            lemma_cycle_writes_step(a, ci, it, fuel, step.0 as int);
            let b = input@;
            if step.0 == c {
                assert(sort_recording@ =~= rr + seq![b]);
            } else {
                let rest = cycle_writes(b, ci, step.1, ci + below_between(b, ci + 1, 5, step.1), (fuel - 1) as nat);
                assert(sort_recording@ + rest.0 =~= rr + (seq![b] + rest.0));
            }
            fuel = (fuel - 1) as nat;
        }
        pos = step.0;
        item = step.1;
    }
}

/// What a finished cycle at `c` leaves for the next one: no more misplaced
/// values, a sorted prefix one longer, and the same values as before.
#[verifier::rlimit(100)]
proof fn lemma_cycle_done(w: Seq<u32>, a: Seq<u32>, c: int, orig: Seq<u32>)
    requires
        0 <= c < 4,
        w.len() == N,
        a.len() == N,
        forall|p: int| 0 <= p < c ==> #[trigger] a[p] == w[p],
        forall|v: u32| #[trigger] below_between(w, c, 5, v) == below_between(a, c, 5, v),
        forall|v: u32| #[trigger] equal_between(w, c, 5, v) == equal_between(a, c, 5, v),
        below_between(a, c + 1, 5, a[c]) == 0,
        forall|p: int, q: int| 0 <= p < q < c ==> w[p] <= w[q],
        forall|p: int, q: int| 0 <= p < c <= q < N ==> w[p] <= w[q],
        forall|v: u32| #[trigger] equal_between(w, 0, 5, v) == equal_between(orig, 0, 5, v),
    ensures
        misplaced(a, a, c + 1) == misplaced(a, w, c),
        forall|p: int, q: int| 0 <= p < q < c + 1 ==> a[p] <= a[q],
        forall|p: int, q: int| 0 <= p < c + 1 <= q < N ==> a[p] <= a[q],
        forall|v: u32| #[trigger] equal_between(a, 0, 5, v) == equal_between(orig, 0, 5, v),
{
    assert forall|p: int| c < p < 5 implies a[c] <= #[trigger] a[p] by {
        reveal(below_between);
    }
    assert forall|p: int| c < p < 5 implies in_place(w, c, p, a[p]) == #[trigger] in_place(a, c + 1, p, a[p]) by {
        assert(below_between(w, c, 5, a[p]) == below_between(a, c, 5, a[p]));
        assert(equal_between(w, c, 5, a[p]) == equal_between(a, c, 5, a[p]));
        assert(a[c] <= a[p]);
        assert(below_between(a, c, 5, a[p]) == below_between(a, c + 1, 5, a[p]) + ind(a[c] < a[p])) by {
            reveal(below_between);
        }
        assert(equal_between(a, c, 5, a[p]) == equal_between(a, c + 1, 5, a[p]) + ind(a[c] == a[p])) by {
            reveal(equal_between);
        }
        if a[c] == a[p] {
            assert(below_between(a, c + 1, 5, a[p]) == 0);
        }
    }
    assert(in_place(w, c, c, a[c])) by {
        assert(below_between(w, c, 5, a[c]) == below_between(a, c, 5, a[c]));
        assert(equal_between(w, c, 5, a[c]) == equal_between(a, c, 5, a[c]));
        reveal(below_between);
        reveal(equal_between);
    }
    assert(misplaced(a, a, c + 1) == misplaced(a, w, c)) by {
        reveal(misplaced);
        assert(in_place(w, c, 4, a[4]) == in_place(a, c + 1, 4, a[4]));
        assert(c < 3 ==> in_place(w, c, 3, a[3]) == in_place(a, c + 1, 3, a[3]));
        assert(c < 2 ==> in_place(w, c, 2, a[2]) == in_place(a, c + 1, 2, a[2]));
        assert(c < 1 ==> in_place(w, c, 1, a[1]) == in_place(a, c + 1, 1, a[1]));
    }
    assert forall|q: int| #![trigger a[q]] c <= q < 5 implies exists|m: int| c <= m < 5 && #[trigger] w[m] == a[q] by {
        assert(equal_between(a, c, 5, a[q]) >= 1) by {
            reveal(equal_between);
        }
        assert(equal_between(w, c, 5, a[q]) >= 1);
        reveal(equal_between);
    }
    assert forall|p: int, q: int| 0 <= p < c + 1 <= q < N implies a[p] <= a[q] by {
        if p < c {
            let m = choose|m: int| c <= m < 5 && w[m] == a[q];
            assert(w[p] <= w[m]);
        } else {
            assert(a[c] <= a[q]);
        }
    }
    assert forall|p: int, q: int| 0 <= p < q < c + 1 implies a[p] <= a[q] by {
        if q == c {
            let m = choose|m: int| c <= m < 5 && w[m] == a[c];
            assert(w[p] <= w[m]);
        }
    }
    assert forall|v: u32| #[trigger] equal_between(a, 0, 5, v) == equal_between(orig, 0, 5, v) by {
        assert(equal_between(w, c, 5, v) == equal_between(a, c, 5, v));
        assert(equal_between(w, 0, 5, v) == equal_between(orig, 0, 5, v));
        reveal(equal_between);
    }
}

/// Sorts by following each permutation cycle, writing every value straight to
/// its final position and recording the state after each write; values equal
/// to the one being placed are stepped over. The output holds each value as
/// often as the input did, and one stage is recorded for each position whose
/// value differs from the one it holds once sorted: a value already in place
/// is never written.
pub fn cycle_sort(input: &mut [u32; N]) -> (r: SortRecordingLinearCycleSort)
    ensures
        r.wf(),
        r@.len() >= 1,
        r@[0] == old(input)@,
        r@.last() == final(input)@,
        write_run(r@),
        sorted(final(input)@),
        forall|v: u32| #[trigger] equal_between(final(input)@, 0, 5, v) == equal_between(old(input)@, 0, 5, v),
        r@.len() == 1 + misplaced(old(input)@, old(input)@, 0),
        r@ == cycle_stages(old(input)@),
{
    let ghost orig = input@;
    let mut sort_recording = SortRecordingLinearCycleSort::new();
    sort_recording.push(input);
    assert(sort_recording@ == seq![orig]);
    proof {
        assert(misplaced(orig, orig, 0) <= 5) by {
            reveal(misplaced);
        }
    }
    let mut cycle_start: usize = 0;
    while cycle_start < N - 1
        invariant
            cycle_start <= N - 1,
            sort_recording.wf(),
            sort_recording@.len() >= 1,
            sort_recording@[0] == orig,
            sort_recording@.last() == input@,
            write_run(sort_recording@),
            sort_recording.count - 1 + misplaced(input@, input@, cycle_start as int) == misplaced(
                orig,
                orig,
                0,
            ),
            misplaced(orig, orig, 0) <= 5,
            sort_recording@ + cycle_from(input@, cycle_start as int) == cycle_stages(orig),
            forall|p: int, q: int| 0 <= p < q < cycle_start ==> input@[p] <= input@[q],
            forall|p: int, q: int| 0 <= p < cycle_start <= q < N ==> input@[p] <= input@[q],
            forall|v: u32| #[trigger] equal_between(input@, 0, 5, v) == equal_between(orig, 0, 5, v),
        decreases N - 1 - cycle_start,
    {
        let ghost w = input@;
        let ghost rr = sort_recording@;
        run_cycle(input, cycle_start, &mut sort_recording);
        assert(sort_recording@ + cycle_from(input@, cycle_start + 1) =~= rr + cycle_from(
            w,
            cycle_start as int,
        ));
        proof {
            lemma_cycle_done(w, input@, cycle_start as int, orig);
        }
        cycle_start += 1;
    }
    proof {
        let a = input@;
        assert(misplaced(a, a, 4) == 0) by {
            reveal(misplaced);
            reveal(below_between);
            reveal(equal_between);
        }
    }
    sort_recording
}

/// Every value of `a` in `lo..=hi` is one that `b` holds somewhere in `lo..=hi`.
pub open spec fn drawn_from(a: Seq<u32>, b: Seq<u32>, lo: int, hi: int) -> bool {
    forall|k: int| lo <= k && k <= hi ==> #[trigger] drawn_at(a, b, lo, hi, k)
}

/// `a` and `b` agree outside `lo..=hi`.
pub open spec fn same_outside(a: Seq<u32>, b: Seq<u32>, lo: int, hi: int) -> bool {
    &&& a.len() == b.len()
    &&& forall|k: int| 0 <= k < a.len() && !(lo <= k <= hi) ==> #[trigger] a[k] == b[k]
}

/// `a` is sorted in `lo..=hi`.
pub open spec fn sorted_between(a: Seq<u32>, lo: int, hi: int) -> bool {
    forall|p: int, q: int| lo <= p < q <= hi ==> a[p] <= a[q]
}

/// `new` keeps the stages of `old` and appends exchanges of two positions:
/// the first of `start`, each later one of the stage before it.
pub open spec fn extends_by_swaps(new: Seq<Seq<u32>>, old: Seq<Seq<u32>>, start: Seq<u32>) -> bool {
    &&& old.len() <= new.len()
    &&& forall|k: int| 0 <= k < old.len() ==> #[trigger] new[k] == old[k]
    &&& new.len() > old.len() ==> swap_step(start, new[old.len() as int])
    &&& forall|k: int| #![trigger new[k]] old.len() < k < new.len() ==> swap_step(new[k - 1], new[k])
}

/// `m + (m - 1) + ... + 1`.
pub open spec fn triangle(m: int) -> int
    decreases m,
{
    if m <= 0 {
        0
    } else {
        m + triangle(m - 1)
    }
}

/// Most exchanges that quicksort records on a range of `m` values.
pub open spec fn quick_bound(m: int) -> int {
    if m <= 1 {
        0
    } else {
        triangle(m) - 1
    }
}

proof fn lemma_triangle_at_least(m: int)
    requires
        m >= 0,
    ensures
        triangle(m) >= m,
    decreases m,
{
    if m > 0 {
        lemma_triangle_at_least(m - 1);
    }
}

proof fn lemma_triangle_split(l: int, r: int)
    requires
        l >= 0,
        r >= 0,
    ensures
        triangle(l) + triangle(r) <= triangle(l + r),
        triangle(l) >= l,
        triangle(r) >= r,
    decreases r,
{
    lemma_triangle_at_least(l);
    lemma_triangle_at_least(r);
    if r > 0 {
        lemma_triangle_split(l, r - 1);
        lemma_triangle_at_least(l + r - 1);
    }
}

proof fn lemma_quick_bound_size(m: int)
    ensures
        quick_bound(m) >= 0,
        m >= 2 ==> quick_bound(m) >= m,
{
    if m >= 2 {
        lemma_triangle_at_least(m - 1);
    }
}

proof fn lemma_quick_bound(l: int, r: int)
    requires
        l >= 0,
        r >= 0,
        l + r >= 1,
    ensures
        (l + r + 1) + quick_bound(l) + quick_bound(r) <= quick_bound(l + r + 1),
        quick_bound(l) >= 0,
        quick_bound(r) >= 0,
{
    lemma_quick_bound_size(l);
    lemma_quick_bound_size(r);
    lemma_triangle_split(l, r);
    assert(triangle(l + r + 1) == l + r + 1 + triangle(l + r));
    if l <= 1 && r <= 1 {
        lemma_triangle_at_least(l + r - 1);
    }
}

proof fn lemma_extends_push(
    new: Seq<Seq<u32>>,
    mid: Seq<Seq<u32>>,
    old: Seq<Seq<u32>>,
    start: Seq<u32>,
    x: Seq<u32>,
)
    requires
        extends_by_swaps(mid, old, start),
        new == mid.push(x),
        swap_step(
            if mid.len() > old.len() {
                mid.last()
            } else {
                start
            },
            x,
        ),
    ensures
        extends_by_swaps(new, old, start),
{
    assert forall|k: int| #![trigger new[k]] old.len() < k < new.len() implies swap_step(
        new[k - 1],
        new[k],
    ) by {
        if k < mid.len() {
            assert(new[k] == mid[k]);
            assert(new[k - 1] == mid[k - 1]);
        } else {
            assert(new[k - 1] == mid.last());
        }
    }
    if mid.len() > old.len() {
        assert(new[old.len() as int] == mid[old.len() as int]);
    }
}

proof fn lemma_extends_trans(
    c: Seq<Seq<u32>>,
    b: Seq<Seq<u32>>,
    a: Seq<Seq<u32>>,
    s0: Seq<u32>,
    s1: Seq<u32>,
)
    requires
        extends_by_swaps(b, a, s0),
        extends_by_swaps(c, b, s1),
        b.len() > a.len() ==> s1 == b.last(),
        b.len() == a.len() ==> s1 == s0,
    ensures
        extends_by_swaps(c, a, s0),
{
    assert forall|k: int| #![trigger c[k]] a.len() < k < c.len() implies swap_step(c[k - 1], c[k]) by {
        if k < b.len() {
            assert(c[k] == b[k]);
            assert(c[k - 1] == b[k - 1]);
        } else if k == b.len() {
            assert(c[k - 1] == b.last());
        }
    }
    assert forall|k: int| 0 <= k < a.len() implies #[trigger] c[k] == a[k] by {
        assert(c[k] == b[k]);
    }
    if c.len() > a.len() {
        if b.len() > a.len() {
            assert(c[a.len() as int] == b[a.len() as int]);
        }
    }
}

proof fn lemma_same_outside_trans(
    c: Seq<u32>,
    b: Seq<u32>,
    a: Seq<u32>,
    lo1: int,
    hi1: int,
    lo2: int,
    hi2: int,
    lo: int,
    hi: int,
)
    requires
        same_outside(b, a, lo1, hi1),
        same_outside(c, b, lo2, hi2),
        lo <= lo1,
        lo <= lo2,
        hi1 <= hi,
        hi2 <= hi,
    ensures
        same_outside(c, a, lo, hi),
{
    assert forall|k: int| 0 <= k < c.len() && !(lo <= k <= hi) implies #[trigger] c[k] == a[k] by {
        assert(c[k] == b[k]);
        assert(b[k] == a[k]);
    }
}

proof fn lemma_drawn_from_swap(a: Seq<u32>, b: Seq<u32>, lo: int, hi: int, i: int, j: int)
    requires
        drawn_from(a, b, lo, hi),
        lo <= i <= hi,
        lo <= j <= hi,
        0 <= lo,
        hi < a.len(),
    ensures
        drawn_from(swapped(a, i, j), a, lo, hi),
        drawn_from(swapped(a, i, j), b, lo, hi),
{
    let s = swapped(a, i, j);
    assert forall|k: int| lo <= k && k <= hi implies #[trigger] drawn_at(
        s,
        a,
        lo,
        hi,
        k,
    ) by {
        if k == j {
            assert(s[k] == a[i]);
        } else if k == i {
            assert(s[k] == a[j]);
        } else {
            assert(s[k] == a[k]);
        }
    }
    assert forall|k: int| lo <= k && k <= hi implies #[trigger] drawn_at(
        s,
        b,
        lo,
        hi,
        k,
    ) by {
        let x = if k == j {
            i
        } else if k == i {
            j
        } else {
            k
        };
        assert(s[k] == a[x]);
        assert(drawn_at(a, b, lo, hi, x));
        let y = choose|y: int| lo <= y && y <= hi && a[x] == b[y];
        assert(lo <= y && y <= hi && s[k] == b[y]);
    }
}

proof fn lemma_drawn_from_refl(a: Seq<u32>, lo: int, hi: int)
    ensures
        drawn_from(a, a, lo, hi),
{
    assert forall|k: int| lo <= k && k <= hi implies #[trigger] drawn_at(
        a,
        a,
        lo,
        hi,
        k,
    ) by {
        assert(a[k] <= u32::MAX);
    }
}

proof fn lemma_drawn_from_trans(a: Seq<u32>, b: Seq<u32>, c: Seq<u32>, lo: int, hi: int)
    requires
        drawn_from(a, b, lo, hi),
        drawn_from(b, c, lo, hi),
    ensures
        drawn_from(a, c, lo, hi),
{
    assert forall|k: int| lo <= k && k <= hi implies #[trigger] drawn_at(
        a,
        c,
        lo,
        hi,
        k,
    ) by {
        assert(drawn_at(a, b, lo, hi, k));
        let x = choose|x: int| lo <= x && x <= hi && a[k] == b[x];
        assert(b[x] <= u32::MAX);
        assert(drawn_at(b, c, lo, hi, x));
        let y = choose|y: int| lo <= y && y <= hi && b[x] == c[y];
        assert(lo <= y && y <= hi && a[k] == c[y]);
    }
}

proof fn lemma_drawn_from_widen(a: Seq<u32>, b: Seq<u32>, lo: int, hi: int, lo2: int, hi2: int)
    requires
        drawn_from(a, b, lo, hi),
        same_outside(a, b, lo, hi),
        lo2 <= lo,
        hi <= hi2,
        0 <= lo2,
        hi2 < a.len(),
    ensures
        drawn_from(a, b, lo2, hi2),
{
    assert forall|k: int| lo2 <= k && k <= hi2 implies #[trigger] drawn_at(
        a,
        b,
        lo2,
        hi2,
        k,
    ) by {
        if lo <= k <= hi {
            assert(drawn_at(a, b, lo, hi, k));
            let x = choose|x: int| lo <= x && x <= hi && a[k] == b[x];
            assert(lo2 <= x <= hi2 && a[k] == b[x]);
        } else {
            assert(a[k] == b[k]);
        }
    }
}

/// The scan of a Lomuto partition over `i..hi` against `pivot`, with the
/// cursor at `pidx`: each value not above the pivot is exchanged with the one
/// at the cursor, which then moves on. The stages recorded, the state after
/// the scan and the cursor.
pub open spec fn lomuto_scan(s: Seq<u32>, i: int, hi: int, pivot: u32, pidx: int) -> (Seq<Seq<u32>>, Seq<u32>, int)
    decreases hi - i,
{
    if i >= hi {
        (Seq::empty(), s, pidx)
    } else if s[i] <= pivot {
        let t = swapped(s, pidx, i);
        let r = lomuto_scan(t, i + 1, hi, pivot, pidx + 1);
        (seq![t] + r.0, r.1, r.2)
    } else {
        lomuto_scan(s, i + 1, hi, pivot, pidx)
    }
}

/// A Lomuto partition of `lo..=hi` round the value at `hi`: the stages
/// recorded (the final placement of the pivot always among them), the state
/// after it and the pivot's place.
#[verifier::opaque]
pub open spec fn lomuto(s: Seq<u32>, lo: int, hi: int) -> (Seq<Seq<u32>>, Seq<u32>, int) {
    let r = lomuto_scan(s, lo, hi, s[hi], lo);
    let t = swapped(r.1, r.2, hi);
    (r.0.push(t), t, r.2)
}

/// The stages that quicksort records on `lo..=hi`, and the state after it:
/// a partition, then the part left of the pivot, then the part right of it.
#[verifier::opaque]
pub open spec fn quick_between(s: Seq<u32>, lo: int, hi: int) -> (Seq<Seq<u32>>, Seq<u32>)
    decreases hi + 1 - lo,
{
    if 0 <= lo < hi {
        let pr = lomuto(s, lo, hi);
        let p = pr.2;
        if lo <= p <= hi {
            let left = if p > 0 {
                quick_between(pr.1, lo, p - 1)
            } else {
                (Seq::empty(), pr.1)
            };
            let right = quick_between(left.1, p + 1, hi);
            (pr.0 + left.0 + right.0, right.1)
        } else {
            (pr.0, pr.1)
        }
    } else {
        (Seq::empty(), s)
    }
}

/// Every stage that quicksort records for `s`, the input first.
pub open spec fn quick_stages(s: Seq<u32>) -> Seq<Seq<u32>> {
    seq![s] + quick_between(s, 0, N - 1).0
}

/// Splits `lo..=hi` round the value at `hi`, recording each exchange, the
/// final placement of that value included.
#[verifier::rlimit(100)]
#[verifier::spinoff_prover]
fn partition_lomuto_scheme(
    input: &mut [u32; N],
    lo: usize,
    hi: usize,
    sort_recording: &mut SortRecordingQuadraticQuickSort,
) -> (p: usize)
    requires
        lo < hi < N,
        old(sort_recording).wf(),
        old(sort_recording).count + (hi - lo + 1) <= 15,
    ensures
        lo <= p <= hi,
        p == lomuto(old(input)@, lo as int, hi as int).2,
        final(input)@ == lomuto(old(input)@, lo as int, hi as int).1,
        final(sort_recording)@ == old(sort_recording)@ + lomuto(old(input)@, lo as int, hi as int).0,
        final(input)@[p as int] == old(input)@[hi as int],
        final(sort_recording)@.len() == old(sort_recording)@.len() + (p - lo) + 1,
        final(sort_recording).wf(),
        extends_by_swaps(final(sort_recording)@, old(sort_recording)@, old(input)@),
        old(sort_recording)@.len() < final(sort_recording)@.len() <= old(sort_recording)@.len() + (hi - lo + 1),
        final(sort_recording)@.last() == final(input)@,
        final(input)@.to_multiset() == old(input)@.to_multiset(),
        same_outside(final(input)@, old(input)@, lo as int, hi as int),
        drawn_from(final(input)@, old(input)@, lo as int, hi as int),
        forall|k: int| lo <= k < p ==> #[trigger] final(input)@[k] <= final(input)@[p as int],
        forall|k: int| p < k <= hi ==> #[trigger] final(input)@[k] > final(input)@[p as int],
{
    let ghost a0 = input@;
    let ghost r0 = sort_recording@;
    let pivot = input[hi];
    let mut pivot_index: usize = lo;
    let mut i: usize = lo;
    proof {
        lemma_drawn_from_refl(a0, lo as int, hi as int);
    }
    while i < hi
        invariant
            lo <= pivot_index <= i <= hi < N,
            input@[hi as int] == pivot,
            sort_recording.wf(),
            sort_recording.count == r0.len() + (pivot_index - lo),
            r0.len() + (hi - lo + 1) <= 15,
            extends_by_swaps(sort_recording@, r0, a0),
            sort_recording@.len() > r0.len() ==> sort_recording@.last() == input@,
            sort_recording@.len() == r0.len() ==> input@ == a0,
            input@.to_multiset() == a0.to_multiset(),
            same_outside(input@, a0, lo as int, hi as int),
            drawn_from(input@, a0, lo as int, hi as int),
            forall|k: int| lo <= k < pivot_index ==> #[trigger] input@[k] <= pivot,
            forall|k: int| pivot_index <= k < i ==> #[trigger] input@[k] > pivot,
            pivot == a0[hi as int],
            sort_recording@ + lomuto_scan(input@, i as int, hi as int, pivot, pivot_index as int).0
                == r0 + lomuto_scan(a0, lo as int, hi as int, pivot, lo as int).0,
            lomuto_scan(input@, i as int, hi as int, pivot, pivot_index as int).1 == lomuto_scan(
                a0,
                lo as int,
                hi as int,
                pivot,
                lo as int,
            ).1,
            lomuto_scan(input@, i as int, hi as int, pivot, pivot_index as int).2 == lomuto_scan(
                a0,
                lo as int,
                hi as int,
                pivot,
                lo as int,
            ).2,
        decreases hi - i,
    {
        if input[i] <= pivot {
            let ghost prev = input@;
            let ghost rprev = sort_recording@;
            proof {
                lemma_drawn_from_swap(prev, a0, lo as int, hi as int, pivot_index as int, i as int);
            }
            swap_values(input, pivot_index, i);
            sort_recording.push(input);
            proof {
                assert(input@ == swapped(prev, pivot_index as int, i as int));
                assert(swap_step(prev, input@));
                assert((if rprev.len() > r0.len() {
                    rprev.last()
                } else {
                    a0
                }) == prev);
                lemma_extends_push(sort_recording@, rprev, r0, a0, input@);
                let rest = lomuto_scan(input@, i + 1, hi as int, pivot, pivot_index + 1);
                assert(lomuto_scan(prev, i as int, hi as int, pivot, pivot_index as int) == (
                seq![input@] + rest.0, rest.1, rest.2));
                assert(sort_recording@ + rest.0 =~= rprev + (seq![input@] + rest.0));
            }
            pivot_index += 1;
        }
        i += 1;
    }
    let ghost prev = input@;
    let ghost rprev = sort_recording@;
    proof {
        lemma_drawn_from_swap(prev, a0, lo as int, hi as int, pivot_index as int, hi as int);
    }
    swap_values(input, pivot_index, hi);
    sort_recording.push(input);
    proof {
        assert(input@ == swapped(prev, pivot_index as int, hi as int));
        assert(swap_step(prev, input@));
        assert((if rprev.len() > r0.len() {
            rprev.last()
        } else {
            a0
        }) == prev);
        lemma_extends_push(sort_recording@, rprev, r0, a0, input@);
        reveal(lomuto);
        assert(sort_recording@ =~= r0 + lomuto(a0, lo as int, hi as int).0);
    }
    pivot_index
}

/// What the partition and the sort of the left part leave for the right part.
#[verifier::spinoff_prover]
proof fn lemma_quick_left(
    a0: Seq<u32>,
    a1: Seq<u32>,
    a2: Seq<u32>,
    r0: Seq<Seq<u32>>,
    r1: Seq<Seq<u32>>,
    r2: Seq<Seq<u32>>,
    lo: int,
    hi: int,
    p: int,
)
    requires
        0 <= lo <= p <= hi < N,
        lo < hi,
        a0.len() == N,
        drawn_from(a1, a0, lo, hi),
        same_outside(a1, a0, lo, hi),
        extends_by_swaps(r1, r0, a0),
        r1.len() > r0.len(),
        r1.last() == a1,
        forall|k: int| lo <= k < p ==> #[trigger] a1[k] <= a1[p],
        forall|k: int| p < k <= hi ==> #[trigger] a1[k] > a1[p],
        p > lo ==> extends_by_swaps(r2, r1, a1),
        p > lo ==> (r2.len() > r1.len() ==> r2.last() == a2),
        p > lo ==> (r2.len() == r1.len() ==> a2 == a1),
        p > lo ==> same_outside(a2, a1, lo, p - 1),
        p > lo ==> drawn_from(a2, a1, lo, p - 1),
        p > lo ==> sorted_between(a2, lo, p - 1),
        p == lo ==> a2 == a1 && r2 == r1,
    ensures
        drawn_from(a2, a0, lo, hi),
        same_outside(a2, a0, lo, hi),
        extends_by_swaps(r2, r0, a0),
        r2.len() > r0.len(),
        r2.last() == a2,
        sorted_between(a2, lo, p - 1),
        forall|k: int| lo <= k < p ==> #[trigger] a2[k] <= a2[p],
        forall|k: int| p < k <= hi ==> #[trigger] a2[k] > a2[p],
{
    if p > lo {
        lemma_drawn_from_widen(a2, a1, lo, p - 1, lo, hi);
        lemma_drawn_from_trans(a2, a1, a0, lo, hi);
        lemma_extends_trans(r2, r1, r0, a0, a1);
        lemma_same_outside_trans(a2, a1, a0, lo, hi, lo, p - 1, lo, hi);
        if r2.len() == r1.len() {
            assert(r2 =~= r1);
        }
        assert forall|k: int| lo <= k < p implies #[trigger] a2[k] <= a2[p] by {
            assert(drawn_at(a2, a1, lo, p - 1, k));
            let x = choose|x: int| lo <= x && x <= p - 1 && a2[k] == a1[x];
        }
        assert(a2[p] == a1[p]);
        assert forall|k: int| p < k <= hi implies #[trigger] a2[k] > a2[p] by {
            assert(a2[k] == a1[k]);
        }
    }
}

/// What the sort of the right part leaves: the whole range sorted.
#[verifier::spinoff_prover]
proof fn lemma_quick_right(
    a0: Seq<u32>,
    a2: Seq<u32>,
    a3: Seq<u32>,
    r0: Seq<Seq<u32>>,
    r2: Seq<Seq<u32>>,
    r3: Seq<Seq<u32>>,
    lo: int,
    hi: int,
    p: int,
)
    requires
        0 <= lo <= p <= hi < N,
        lo < hi,
        a0.len() == N,
        drawn_from(a2, a0, lo, hi),
        same_outside(a2, a0, lo, hi),
        extends_by_swaps(r2, r0, a0),
        r2.len() > r0.len(),
        r2.last() == a2,
        sorted_between(a2, lo, p - 1),
        forall|k: int| lo <= k < p ==> #[trigger] a2[k] <= a2[p],
        forall|k: int| p < k <= hi ==> #[trigger] a2[k] > a2[p],
        extends_by_swaps(r3, r2, a2),
        r3.len() > r2.len() ==> r3.last() == a3,
        r3.len() == r2.len() ==> a3 == a2,
        same_outside(a3, a2, p + 1, hi),
        p + 1 <= hi ==> drawn_from(a3, a2, p + 1, hi),
        sorted_between(a3, p + 1, hi),
    ensures
        drawn_from(a3, a0, lo, hi),
        same_outside(a3, a0, lo, hi),
        extends_by_swaps(r3, r0, a0),
        r3.len() > r0.len(),
        r3.last() == a3,
        sorted_between(a3, lo, hi),
{
    if r3.len() == r2.len() {
        assert(r3 =~= r2);
    }
    lemma_extends_trans(r3, r2, r0, a0, a2);
    if p < hi {
        lemma_drawn_from_widen(a3, a2, p + 1, hi, lo, hi);
        lemma_drawn_from_trans(a3, a2, a0, lo, hi);
        lemma_same_outside_trans(a3, a2, a0, lo, hi, p + 1, hi, lo, hi);
        assert forall|k: int| p < k <= hi implies #[trigger] a3[k] > a3[p] by {
            assert(drawn_at(a3, a2, p + 1, hi, k));
            let x = choose|x: int| p + 1 <= x && x <= hi && a3[k] == a2[x];
        }
        assert forall|k: int| lo <= k < p implies #[trigger] a3[k] <= a3[p] by {
            assert(a3[k] == a2[k]);
        }
    } else {
        assert(a3 =~= a2);
    }
    assert(sorted_between(a3, lo, hi));
}

/// Quicksort's recorded stages on `lo..=hi` are those of the partition, then
/// of the left part, then of the right part.
proof fn lemma_quick_compose(
    a0: Seq<u32>,
    a2: Seq<u32>,
    a3: Seq<u32>,
    r0: Seq<Seq<u32>>,
    r1: Seq<Seq<u32>>,
    r2: Seq<Seq<u32>>,
    r3: Seq<Seq<u32>>,
    lo: int,
    hi: int,
    p: int,
)
    requires
        0 <= lo < hi,
        lo <= p <= hi,
        p == lomuto(a0, lo, hi).2,
        r1 == r0 + lomuto(a0, lo, hi).0,
        p > 0 ==> r2 == r1 + quick_between(lomuto(a0, lo, hi).1, lo, p - 1).0,
        p > 0 ==> a2 == quick_between(lomuto(a0, lo, hi).1, lo, p - 1).1,
        p == 0 ==> r2 == r1,
        p == 0 ==> a2 == lomuto(a0, lo, hi).1,
        r3 == r2 + quick_between(a2, p + 1, hi).0,
        a3 == quick_between(a2, p + 1, hi).1,
    ensures
        r3 == r0 + quick_between(a0, lo, hi).0,
        a3 == quick_between(a0, lo, hi).1,
{
    reveal(quick_between);
    let pr = lomuto(a0, lo, hi);
    let left = if p > 0 {
        quick_between(pr.1, lo, p - 1)
    } else {
        (Seq::<Seq<u32>>::empty(), pr.1)
    };
    assert(r2 =~= r1 + left.0);
    let right = quick_between(a2, p + 1, hi);
    assert(quick_between(a0, lo, hi) == (pr.0 + left.0 + right.0, right.1));
    assert(r3 =~= r0 + (pr.0 + left.0 + right.0));
}

#[verifier::rlimit(100)]
#[verifier::spinoff_prover]
/// Sorts `lo..=hi` of `input` by Lomuto partitioning, left part first.
fn quicksort(
    input: &mut [u32; N],
    lo: usize,
    hi: usize,
    sort_recording: &mut SortRecordingQuadraticQuickSort,
)
    requires
        hi < N,
        old(sort_recording).wf(),
        old(sort_recording).count + quick_bound(hi - lo + 1) <= 15,
    ensures
        final(sort_recording).wf(),
        extends_by_swaps(final(sort_recording)@, old(sort_recording)@, old(input)@),
        final(sort_recording)@.len() <= old(sort_recording)@.len() + quick_bound(hi - lo + 1),
        final(sort_recording)@.len() > old(sort_recording)@.len() ==> final(sort_recording)@.last()
            == final(input)@,
        final(sort_recording)@.len() == old(sort_recording)@.len() ==> final(input)@ == old(input)@,
        final(input)@.to_multiset() == old(input)@.to_multiset(),
        same_outside(final(input)@, old(input)@, lo as int, hi as int),
        lo <= hi ==> drawn_from(final(input)@, old(input)@, lo as int, hi as int),
        sorted_between(final(input)@, lo as int, hi as int),
        final(sort_recording)@ == old(sort_recording)@ + quick_between(old(input)@, lo as int, hi as int).0,
        final(input)@ == quick_between(old(input)@, lo as int, hi as int).1,
    decreases hi + 1 - lo,
{
    let ghost a0 = input@;
    proof {
        lemma_drawn_from_refl(a0, lo as int, hi as int);
    }
    let ghost r0 = sort_recording@;
    if lo < hi {
        proof {
            lemma_quick_bound_size(hi - lo + 1);
        }
        let p = partition_lomuto_scheme(input, lo, hi, sort_recording);
        let ghost a1 = input@;
        let ghost r1 = sort_recording@;
        proof {
            lemma_quick_bound((p - lo) as int, (hi - p) as int);
        }
        if p > 0 {
            quicksort(input, lo, p - 1, sort_recording);
        }
        let ghost a2 = input@;
        let ghost r2 = sort_recording@;
        proof {
            if p == lo {
                assert(a2 =~= a1);
                assert(r2 =~= r1);
            }
            lemma_quick_left(a0, a1, a2, r0, r1, r2, lo as int, hi as int, p as int);
        }
        quicksort(input, p + 1, hi, sort_recording);
        proof {
            let a3 = input@;
            let r3 = sort_recording@;
            lemma_quick_right(a0, a2, a3, r0, r2, r3, lo as int, hi as int, p as int);
            lemma_quick_compose(a0, a2, a3, r0, r1, r2, r3, lo as int, hi as int, p as int);
        }
    } else {
        assert(input@ =~= a0);
        assert(sort_recording@ =~= r0 + Seq::<Seq<u32>>::empty());
        assert(sort_recording@ =~= r0);
        assert(quick_between(a0, lo as int, hi as int) == (Seq::<Seq<u32>>::empty(), a0)) by {
            reveal(quick_between);
        }
    }
}

/// Sorts by Lomuto quicksort, recording the state after each exchange.
pub fn quick_sort(input: &mut [u32; N]) -> (r: SortRecordingQuadraticQuickSort)
    ensures
        r.wf(),
        r@ == quick_stages(old(input)@),
        sorts_to(r@, old(input)@, final(input)@),
        swap_run(r@),
{
    let ghost orig = input@;
    let mut sort_recording = SortRecordingQuadraticQuickSort::new();
    sort_recording.push(input);
    let ghost r0 = sort_recording@;
    assert(r0 == seq![orig]);
    assert(quick_bound(5) == 14) by {
        reveal_with_fuel(triangle, 6);
    }
    quicksort(input, 0, N - 1, &mut sort_recording);
    proof {
        let r = sort_recording@;
        assert(r[0] == r0[0]);
        assert(sorted_between(input@, 0, 4));
        if r.len() == 1 {
            assert(r =~= r0);
        }
        assert forall|k: int| #![trigger r[k]] 0 < k < r.len() implies swap_step(r[k - 1], r[k]) by {
            if k == 1 {
                assert(r[0] == orig);
            }
        }
    }
    sort_recording
}

} // verus!
