use sort_of_blink::playback::{pick_level, to_u8, SortRace};
use sort_of_blink::recording::SortRecording;
use sort_of_blink::sorts::{
    bubble_sort, cycle_sort, insertion_sort, is_sorted as sorted_check, quick_sort, selection_sort,
};

fn is_sorted(s: &[u32; 5]) -> bool {
    s.windows(2).all(|w| w[0] <= w[1])
}

fn stages<const M: usize>(r: &SortRecording<M>) -> Vec<[u32; 5]> {
    r.stages[..r.count].to_vec()
}

fn all_inputs() -> Vec<[u32; 5]> {
    let mut out = Vec::new();
    for n in 0..3125u32 {
        let mut x = n;
        let mut a = [0u32; 5];
        for slot in a.iter_mut() {
            *slot = 1 + x % 5;
            x /= 5;
        }
        out.push(a);
    }
    out
}

fn check<const M: usize>(input: [u32; 5], sorted_out: [u32; 5], r: &SortRecording<M>) {
    assert!(r.count >= 1 && r.count <= M);
    assert_eq!(r.stages[0], input);
    assert_eq!(r.get_stage(r.count - 1), sorted_out);
    assert!(is_sorted(&r.get_stage(r.count - 1)));
}

#[test]
fn every_algorithm_ends_sorted_and_starts_with_input() {
    for input in all_inputs() {
        let mut expected = input;
        expected.sort();
        let mut a = input;
        check(input, expected, &bubble_sort(&mut a));
        assert_eq!(a, expected);
        let mut a = input;
        check(input, expected, &insertion_sort(&mut a));
        assert_eq!(a, expected);
        let mut a = input;
        check(input, expected, &selection_sort(&mut a));
        assert_eq!(a, expected);
        let mut a = input;
        check(input, expected, &quick_sort(&mut a));
        assert_eq!(a, expected);
        let mut a = input;
        check(input, expected, &cycle_sort(&mut a));
        assert_eq!(a, expected);
    }
}

#[test]
fn capacities_match_worst_cases() {
    let mut worst = [0usize; 5];
    for input in all_inputs() {
        worst[0] = worst[0].max(bubble_sort(&mut input.clone()).count);
        worst[1] = worst[1].max(insertion_sort(&mut input.clone()).count);
        worst[2] = worst[2].max(selection_sort(&mut input.clone()).count);
        worst[3] = worst[3].max(quick_sort(&mut input.clone()).count);
        worst[4] = worst[4].max(cycle_sort(&mut input.clone()).count);
    }
    assert!(worst[0] <= 11 && worst[1] <= 11);
    assert!(worst[2] <= 5);
    assert!(worst[3] <= 15);
    assert!(worst[4] <= 6);
}

#[test]
fn reads_past_the_end_repeat_the_last_stage() {
    let r = selection_sort(&mut [3, 5, 1, 2, 4]);
    let last = r.get_stage(r.count - 1);
    for i in r.count..r.count + 20 {
        assert_eq!(r.get_stage(i), last);
    }
    assert_eq!(r.get_stage(usize::MAX), last);
}

#[test]
fn cycle_sort_with_duplicates() {
    let mut input = [3, 3, 1, 2, 3];
    let r = cycle_sort(&mut input);
    assert_eq!(input, [1, 2, 3, 3, 3]);
    assert_eq!(r.get_stage(r.count - 1), [1, 2, 3, 3, 3]);
    assert_eq!(r.stages[0], [3, 3, 1, 2, 3]);
}

#[test]
fn cycle_sort_all_equal_records_nothing_more() {
    let mut input = [4, 4, 4, 4, 4];
    let r = cycle_sort(&mut input);
    assert_eq!(r.count, 1);
    assert_eq!(input, [4, 4, 4, 4, 4]);
}

#[test]
fn quick_sort_sorted_input_records_every_pivot_placement() {
    let mut input = [1, 2, 3, 4, 5];
    let r = quick_sort(&mut input);
    assert_eq!(r.count, 15);
    for s in stages(&r) {
        assert_eq!(s, [1, 2, 3, 4, 5]);
    }
}

#[test]
fn selection_sort_exact_stages() {
    let mut input = [3, 5, 1, 2, 4];
    let r = selection_sort(&mut input);
    assert_eq!(
        stages(&r),
        vec![[3, 5, 1, 2, 4], [1, 5, 3, 2, 4], [1, 2, 3, 5, 4], [1, 2, 3, 4, 5]]
    );
}

#[test]
fn selection_sort_already_sorted_records_only_input() {
    let r = selection_sort(&mut [1, 2, 3, 4, 5]);
    assert_eq!(r.count, 1);
}

#[test]
fn bubble_and_insertion_record_one_stage_per_inversion() {
    let b = bubble_sort(&mut [3, 5, 1, 2, 4]);
    let i = insertion_sort(&mut [3, 5, 1, 2, 4]);
    assert_eq!(b.count, 6);
    assert_eq!(i.count, 6);
    let b = bubble_sort(&mut [5, 4, 3, 2, 1]);
    assert_eq!(b.count, 11);
    let i = insertion_sort(&mut [5, 4, 3, 2, 1]);
    assert_eq!(i.count, 11);
}

#[test]
fn bubble_sort_exact_stages() {
    let r = bubble_sort(&mut [2, 1, 3, 5, 4]);
    assert_eq!(stages(&r), vec![[2, 1, 3, 5, 4], [1, 2, 3, 5, 4], [1, 2, 3, 4, 5]]);
}

#[test]
fn insertion_sort_exact_stages() {
    let r = insertion_sort(&mut [3, 1, 2, 5, 4]);
    assert_eq!(
        stages(&r),
        vec![[3, 1, 2, 5, 4], [1, 3, 2, 5, 4], [1, 2, 3, 5, 4], [1, 2, 3, 4, 5]]
    );
}

#[test]
fn replay_holds_short_recordings_on_their_final_state() {
    let input = [3, 5, 1, 2, 4];
    let race = SortRace::new(input);
    let max = race.max_stages_count();
    let counts = [
        race.bubble.count,
        race.selection.count,
        race.insertion.count,
        race.quick.count,
        race.cycle.count,
    ];
    assert_eq!(max, *counts.iter().max().unwrap());
    assert!(race.selection.count < race.quick.count);
    let first = race.frame(0);
    for row in first.iter() {
        assert_eq!(*row, input);
    }
    for f in race.selection.count..max {
        assert_eq!(race.frame(f)[1], [1, 2, 3, 4, 5]);
    }
    assert_eq!(race.frame(max - 1), [[1, 2, 3, 4, 5]; 5]);
}

#[test]
fn to_u8_keeps_low_byte() {
    assert_eq!(to_u8([0, 2, 5, 8, 9]), [0, 2, 5, 8, 9]);
    assert_eq!(to_u8([256, 300, 255, 511, 1]), [0, 44, 255, 255, 1]);
}

#[test]
fn pick_level_takes_each_level_once() {
    let mut used = [false; 5];
    assert_eq!(pick_level(&mut used, 7), Some(5));
    assert_eq!(used, [false, false, true, false, false]);
    assert_eq!(pick_level(&mut used, 12), None);
    assert_eq!(pick_level(&mut used, 4), Some(9));
    assert_eq!(pick_level(&mut used, 5), Some(0));
    assert_eq!(used, [true, false, true, false, true]);
}

#[test]
fn is_sorted_checks_order() {
    assert!(sorted_check(&[1, 2, 2, 3, 9]));
    assert!(sorted_check(&[4, 4, 4, 4, 4]));
    assert!(!sorted_check(&[1, 2, 3, 5, 4]));
    assert!(!sorted_check(&[2, 1, 3, 4, 5]));
}

#[test]
fn bubble_sort_stages_of_example() {
    let mut input = [3, 5, 1, 2, 4];
    let r = bubble_sort(&mut input);
    assert_eq!(
        stages(&r),
        vec![[3, 5, 1, 2, 4], [3, 1, 5, 2, 4], [3, 1, 2, 5, 4], [3, 1, 2, 4, 5], [1, 3, 2, 4, 5], [1, 2, 3, 4, 5]]
    );
    assert_eq!(input, [1, 2, 3, 4, 5]);
}

#[test]
fn insertion_sort_stages_of_example() {
    let r = insertion_sort(&mut [3, 5, 1, 2, 4]);
    assert_eq!(
        stages(&r),
        vec![[3, 5, 1, 2, 4], [3, 1, 5, 2, 4], [1, 3, 5, 2, 4], [1, 3, 2, 5, 4], [1, 2, 3, 5, 4], [1, 2, 3, 4, 5]]
    );
}

#[test]
fn selection_sort_takes_first_of_equal_minimums() {
    let r = selection_sort(&mut [2, 1, 1, 3, 4]);
    assert_eq!(stages(&r), vec![[2, 1, 1, 3, 4], [1, 2, 1, 3, 4], [1, 1, 2, 3, 4]]);
}

#[test]
fn selection_sort_other_inputs() {
    let r = selection_sort(&mut [5, 1, 3, 4, 2]);
    assert_eq!(stages(&r), vec![[5, 1, 3, 4, 2], [1, 5, 3, 4, 2], [1, 2, 3, 4, 5]]);
    let r = selection_sort(&mut [2, 3, 4, 5, 1]);
    assert_eq!(
        stages(&r),
        vec![[2, 3, 4, 5, 1], [1, 3, 4, 5, 2], [1, 2, 4, 5, 3], [1, 2, 3, 5, 4], [1, 2, 3, 4, 5]]
    );
}

#[test]
fn quick_sort_stages_of_examples() {
    let r = quick_sort(&mut [3, 5, 1, 2, 4]);
    assert_eq!(
        stages(&r),
        vec![
            [3, 5, 1, 2, 4],
            [3, 5, 1, 2, 4],
            [3, 1, 5, 2, 4],
            [3, 1, 2, 5, 4],
            [3, 1, 2, 4, 5],
            [1, 3, 2, 4, 5],
            [1, 2, 3, 4, 5]
        ]
    );
    let r = quick_sort(&mut [5, 1, 3, 4, 2]);
    assert_eq!(r.count, 8);
    assert_eq!(stages(&r)[..3].to_vec(), vec![[5, 1, 3, 4, 2], [1, 5, 3, 4, 2], [1, 2, 3, 4, 5]]);
    for s in stages(&r)[2..].iter() {
        assert_eq!(*s, [1, 2, 3, 4, 5]);
    }
}

#[test]
fn cycle_sort_stages_of_examples() {
    let r = cycle_sort(&mut [3, 3, 1, 2, 3]);
    assert_eq!(
        stages(&r),
        vec![[3, 3, 1, 2, 3], [3, 3, 3, 2, 3], [1, 3, 3, 2, 3], [1, 3, 3, 3, 3], [1, 2, 3, 3, 3]]
    );
    let r = cycle_sort(&mut [3, 5, 1, 2, 4]);
    assert_eq!(
        stages(&r),
        vec![[3, 5, 1, 2, 4], [3, 5, 3, 2, 4], [1, 5, 3, 2, 4], [1, 5, 3, 2, 5], [1, 5, 3, 4, 5], [1, 2, 3, 4, 5]]
    );
    let r = cycle_sort(&mut [2, 3, 4, 5, 1]);
    assert_eq!(
        stages(&r),
        vec![[2, 3, 4, 5, 1], [2, 2, 4, 5, 1], [2, 2, 3, 5, 1], [2, 2, 3, 4, 1], [2, 2, 3, 4, 5], [1, 2, 3, 4, 5]]
    );
}

#[test]
fn replay_of_recordings_with_counts_three_and_eight() {
    let race = SortRace::new([5, 1, 3, 4, 2]);
    assert_eq!(race.selection.count, 3);
    assert_eq!(race.quick.count, 8);
    let max = race.max_stages_count();
    for f in 3..max {
        assert_eq!(race.frame(f)[1], [1, 2, 3, 4, 5]);
    }
}

#[test]
fn cycle_sort_records_one_stage_per_misplaced_position() {
    for input in all_inputs() {
        let mut sorted = input;
        sorted.sort();
        let misplaced = (0..5).filter(|&i| input[i] != sorted[i]).count();
        let r = cycle_sort(&mut input.clone());
        assert_eq!(r.count, 1 + misplaced);
        for k in 1..r.count {
            assert_ne!(r.stages[k], r.stages[k - 1]);
        }
    }
}
