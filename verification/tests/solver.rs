use std::cell::Cell;

use fitter::{solve_packing, Bin, Fitter, SolutionState};

fn bin_sums(bins: &[Bin]) -> Vec<u64> {
    bins.iter().map(|b| b.items().iter().map(|w| *w as u64).sum()).collect()
}

fn all_weights_sorted(bins: &[Bin]) -> Vec<u32> {
    let mut all: Vec<u32> = bins.iter().flat_map(|b| b.items().iter().copied()).collect();
    all.sort();
    all
}

#[test]
fn bin_push_pop_roundtrip() {
    let mut b = Bin::new(10);
    assert!(b.is_empty());
    assert!(b.fits(&10));
    assert!(!b.fits(&11));
    b.push(4);
    assert_eq!(b.capacity, 6);
    assert!(b.fits(&6));
    assert!(!b.fits(&7));
    b.push(6);
    assert_eq!(b.capacity, 0);
    assert_eq!(b.items(), &vec![4, 6]);
    assert_eq!(b.pop(), Some(6));
    assert_eq!(b.capacity, 6);
    assert_eq!(b.pop(), Some(4));
    assert_eq!(b.capacity, 10);
    assert!(b.is_empty());
    assert_eq!(b.pop(), None);
}

#[test]
fn new_sorts_items_ascending() {
    let solver = Fitter::new(vec![3, 1, 2], vec![10, 10, 10]);
    assert_eq!(solver.items, vec![1, 2, 3]);
    assert_eq!(solver.bins.len(), 3);
    assert!(solver.bins.iter().all(|b| b.capacity == 10 && b.is_empty()));
}

#[test]
fn three_fives_fit_in_two_bins_of_ten() {
    let mut solver = Fitter::new(vec![5, 5, 5], vec![10, 10, 10]);
    let finished = solver.solve_until(|| true);
    assert!(finished);
    assert!(solver.is_solved());
    let non_empty: Vec<&Bin> = solver.bins.iter().filter(|b| !b.is_empty()).collect();
    assert_eq!(non_empty.len(), 2);
    assert_eq!(all_weights_sorted(&solver.bins), vec![5, 5, 5]);
    for b in &solver.bins {
        let sum: u64 = b.items().iter().map(|w| *w as u64).sum();
        assert!(sum <= 10);
    }
}

#[test]
fn two_bins_cannot_hold_three_sixes() {
    // 18 <= 20 in total, but no two-way split of [6, 6, 6] fits 10:
    // exhaustion is proven by backtracking, not by the weight pre-check.
    let mut solver = Fitter::new(vec![6, 6, 6], vec![10, 10]);
    let finished = solver.solve_until(|| true);
    assert!(finished);
    assert!(!solver.is_solved());
    // everything is back in the pending list
    assert_eq!(solver.items, vec![6, 6, 6]);
}

#[test]
fn conservation_and_capacity_hold_mid_search() {
    let mut solver = Fitter::new(vec![4, 3, 2, 7, 5], vec![9, 9, 9]);
    loop {
        let pending: u64 = solver.items.iter().map(|w| *w as u64).sum();
        let assigned: u64 = bin_sums(&solver.bins).iter().sum();
        assert_eq!(pending + assigned, 21);
        for (b, sum) in solver.bins.iter().zip(bin_sums(&solver.bins)) {
            assert!(sum + b.capacity as u64 <= 9);
        }
        if !solver.step() {
            break;
        }
    }
}

#[test]
fn stepping_matches_one_run() {
    let mut one_call = Fitter::new(vec![4, 3, 2, 7, 5, 1, 6], vec![8, 8, 8, 8]);
    let mut stepped = Fitter::new(vec![4, 3, 2, 7, 5, 1, 6], vec![8, 8, 8, 8]);
    let finished = one_call.solve_until(|| true);
    assert!(finished);
    // interrupt after every single step and resume: the engine must land
    // in exactly the same state
    loop {
        let interrupted = !stepped.solve_until({
            let first = Cell::new(true);
            move || {
                let go = first.get();
                first.set(false);
                go
            }
        });
        if !interrupted {
            break;
        }
    }
    assert_eq!(one_call.is_solved(), stepped.is_solved());
    assert_eq!(one_call.items, stepped.items);
    assert_eq!(one_call.bins, stepped.bins);
}

#[test]
fn interrupted_search_resumes_to_completion() {
    let mut solver = Fitter::new(vec![5, 5, 5], vec![10, 10, 10]);
    // a predicate that is false at once: no work is done
    let finished = solver.solve_until(|| false);
    assert!(!finished);
    assert!(!solver.is_solved());
    // lifting the deadline completes the search from where it stopped
    let finished = solver.solve_until(|| true);
    assert!(finished);
    assert!(solver.is_solved());
}

#[test]
fn solve_packing_three_fives() {
    match solve_packing(&vec![5, 5, 5], 10, false, || true) {
        SolutionState::Solved(bins) => {
            assert!(!bins.is_empty());
            assert!(bins.iter().all(|b| !b.is_empty()));
            assert_eq!(all_weights_sorted(&bins), vec![5, 5, 5]);
            for sum in bin_sums(&bins) {
                assert!(sum <= 10);
            }
        },
        other => panic!("expected a solution, got {:?}", other),
    }
}

#[test]
fn solve_packing_rejects_oversized_item() {
    // 11 > 10 * 1: the weight pre-check alone proves this unsolvable
    let r = solve_packing(&vec![11], 10, false, || true);
    assert_eq!(r, SolutionState::Unsolvable);
}

#[test]
fn solve_packing_minimizes_to_two_bins() {
    match solve_packing(&vec![50, 50, 50, 50], 100, true, || true) {
        SolutionState::Solved(bins) => {
            assert_eq!(bins.len(), 2);
            assert_eq!(bin_sums(&bins), vec![100, 100]);
            assert_eq!(all_weights_sorted(&bins), vec![50, 50, 50, 50]);
        },
        other => panic!("expected a two-bin solution, got {:?}", other),
    }
}

#[test]
fn solve_packing_interrupted_is_unknown_then_resumable() {
    let r = solve_packing(&vec![5, 5, 5], 10, false, || false);
    assert_eq!(r, SolutionState::Unknown);
    // a later call with the deadline lifted succeeds
    let r = solve_packing(&vec![5, 5, 5], 10, false, || true);
    assert!(matches!(r, SolutionState::Solved(_)));
}

#[test]
fn solve_packing_empty_input() {
    let r = solve_packing(&vec![], 10, true, || true);
    assert_eq!(r, SolutionState::Solved(vec![]));
}

#[test]
fn solve_packing_exhaustion_keeps_previous_solution() {
    // [6, 6, 6] fits three bins of 10 but never two: minimization must
    // stop at the three-bin solution and still report it as solved
    match solve_packing(&vec![6, 6, 6], 10, true, || true) {
        SolutionState::Solved(bins) => {
            assert_eq!(bins.len(), 3);
            assert_eq!(all_weights_sorted(&bins), vec![6, 6, 6]);
        },
        other => panic!("expected a three-bin solution, got {:?}", other),
    }
}

#[test]
fn swapping_equal_capacity_bins_keeps_solution_valid() {
    // the symmetry the search prunes by: equal-capacity bins are
    // interchangeable in any valid assignment
    match solve_packing(&vec![4, 4, 3, 3, 2], 8, true, || true) {
        SolutionState::Solved(mut bins) => {
            assert!(bins.len() >= 2);
            let items_before = all_weights_sorted(&bins);
            bins.swap(0, 1);
            assert_eq!(all_weights_sorted(&bins), items_before);
            for sum in bin_sums(&bins) {
                assert!(sum <= 8);
            }
        },
        other => panic!("expected a solution, got {:?}", other),
    }
}

#[test]
fn solution_state_insert_keeps_first_decision() {
    let mut s: SolutionState<u32> = SolutionState::Unknown;
    s.insert(SolutionState::Unsolvable);
    assert_eq!(s, SolutionState::Unsolvable);
    s.insert(SolutionState::Solved(7));
    assert_eq!(s, SolutionState::Unsolvable);
    let mut s: SolutionState<u32> = SolutionState::Unknown;
    s.insert(SolutionState::Solved(7));
    assert_eq!(s, SolutionState::Solved(7));
    s.insert(SolutionState::Unsolvable);
    assert_eq!(s, SolutionState::Solved(7));
    assert_eq!(SolutionState::<u32>::default(), SolutionState::Unknown);
}

#[test]
fn hard_instance_with_deadline_counter() {
    // a predicate that allows only a few steps: the search is interrupted
    // with nothing proven, and a later unlimited run completes
    let weights = vec![7, 6, 5, 4, 4, 3, 2, 2, 1];
    let steps = Cell::new(0u32);
    let r = solve_packing(&weights, 9, false, || {
        steps.set(steps.get() + 1);
        steps.get() <= 3
    });
    assert_eq!(r, SolutionState::Unknown);
    match solve_packing(&weights, 9, false, || true) {
        SolutionState::Solved(bins) => {
            let mut expect = weights.clone();
            expect.sort();
            assert_eq!(all_weights_sorted(&bins), expect);
            for sum in bin_sums(&bins) {
                assert!(sum <= 9);
            }
        },
        other => panic!("expected a solution, got {:?}", other),
    }
}

#[test]
fn non_uniform_capacities_exact_fit() {
    let mut solver = Fitter::new(vec![2, 3, 7], vec![9, 3]);
    let finished = solver.solve_until(|| true);
    assert!(finished);
    assert!(solver.is_solved());
    assert_eq!(all_weights_sorted(&solver.bins), vec![2, 3, 7]);
    assert_eq!(bin_sums(&solver.bins).iter().sum::<u64>(), 12);
    let bins = solver.into_bins();
    assert_eq!(bins.len(), 2);
}

#[test]
fn symmetry_pruning_still_finds_the_only_split() {
    // the only valid split of [4, 3, 3, 2] over two bins of 6 pairs the 4
    // with the 2; pruning equal-capacity branches must not lose it
    let mut solver = Fitter::new(vec![4, 3, 3, 2], vec![6, 6]);
    let finished = solver.solve_until(|| true);
    assert!(finished);
    assert!(solver.is_solved());
    let mut sums = bin_sums(&solver.bins);
    sums.sort();
    assert_eq!(sums, vec![6, 6]);
}

#[test]
fn equal_capacity_bins_exhaust_when_no_split_exists() {
    // 12 <= 12 in total, but 4 + 3 > 6 and 5 + anything > 6
    let mut solver = Fitter::new(vec![5, 4, 3], vec![6, 6]);
    let finished = solver.solve_until(|| true);
    assert!(finished);
    assert!(!solver.is_solved());
}

#[test]
fn item_equal_to_capacity_fits_exactly() {
    match solve_packing(&vec![10, 10], 10, true, || true) {
        SolutionState::Solved(bins) => {
            assert_eq!(bins.len(), 2);
            assert_eq!(bin_sums(&bins), vec![10, 10]);
        },
        other => panic!("expected a solution, got {:?}", other),
    }
}

#[test]
fn canonical_order_and_sorted_pending_hold_mid_search() {
    // adjacent bins stay non-increasing lexicographically and the
    // pending list stays sorted, at every step boundary
    let mut solver = Fitter::new(vec![5, 5, 4, 3, 3, 2, 2, 1], vec![8, 8, 8]);
    loop {
        for pair in solver.bins.windows(2) {
            assert!(pair[0].items() >= pair[1].items());
        }
        for pair in solver.items.windows(2) {
            assert!(pair[0] <= pair[1]);
        }
        if !solver.step() {
            break;
        }
    }
}

#[test]
fn reported_bins_come_in_canonical_order() {
    // the driver's contract pins the reported order: non-increasing
    // lexicographically by item sequence
    match solve_packing(&vec![3, 1, 4, 1, 5, 9, 2, 6], 10, true, || true) {
        SolutionState::Solved(bins) => {
            for pair in bins.windows(2) {
                assert!(pair[0].items() >= pair[1].items());
            }
            let mut expect = vec![3, 1, 4, 1, 5, 9, 2, 6];
            expect.sort();
            assert_eq!(all_weights_sorted(&bins), expect);
        },
        other => panic!("expected a solution, got {:?}", other),
    }
}
