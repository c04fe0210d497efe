use operation_research::bin_packing::{
    bin_packing_backtracking, bin_packing_branch_bound, bin_packing_first_fit, compute_cost,
    apply_move, draw_move, first_fit, generate_neighbor, place_all_first_fit, relocate_item,
    swap_items, Move,
};

fn sorted_items(bins: &Vec<Vec<i32>>) -> Vec<i32> {
    let mut all: Vec<i32> = bins.iter().flatten().copied().collect();
    all.sort();
    all
}

#[test]
fn best_fit_picks_the_fullest_bin_with_room() {
    let bins = bin_packing_first_fit(&vec![4, 8, 1, 4, 2, 1], 10);
    assert_eq!(bins, vec![vec![4, 4, 2], vec![8, 1, 1]]);
}

#[test]
fn best_fit_single_item() {
    assert_eq!(bin_packing_first_fit(&vec![7], 10), vec![vec![7]]);
}

#[test]
fn best_fit_falls_back_to_bin_zero_when_no_fitting_bin_is_fuller() {
    // The only bin with room would hold a negative total, so the item goes
    // to bin 0, as the selection starts there.
    let bins = bin_packing_first_fit(&vec![20, -10, 3], 5);
    assert_eq!(bins, vec![vec![20, 3], vec![-10]]);
}

#[test]
fn best_fit_opens_a_bin_when_nothing_fits() {
    let bins = bin_packing_first_fit(&vec![6, 6, 6], 10);
    assert_eq!(bins, vec![vec![6], vec![6], vec![6]]);
}

#[test]
fn backtracking_finds_two_bins() {
    let (count, bins) = bin_packing_backtracking(&vec![4, 8, 1, 4, 2, 1], 10);
    assert_eq!(count, 2);
    assert_eq!(bins, vec![vec![8, 2], vec![4, 4, 1, 1]]);
}

#[test]
fn backtracking_other_instance() {
    let (count, bins) = bin_packing_backtracking(&vec![6, 5, 4, 3, 2], 10);
    assert_eq!(count, 2);
    assert_eq!(bins, vec![vec![6, 4], vec![5, 3, 2]]);
}

#[test]
fn backtracking_no_improvement_on_one_bin_per_item() {
    let (count, bins) = bin_packing_backtracking(&vec![5, 5], 5);
    assert_eq!(count, 2);
    assert!(bins.is_empty());
}

#[test]
fn backtracking_merges_small_items() {
    assert_eq!(bin_packing_backtracking(&vec![3, 3], 10), (1, vec![vec![3, 3]]));
}

#[test]
fn backtracking_no_items() {
    assert_eq!(bin_packing_backtracking(&vec![], 10), (0, vec![]));
}

#[test]
fn branch_bound_finds_two_bins() {
    let (count, bins) = bin_packing_branch_bound(&vec![4, 8, 1, 4, 2, 1], 10);
    assert_eq!(count, 2);
    assert_eq!(bins, vec![vec![8, 2], vec![4, 4, 1, 1]]);
}

#[test]
fn branch_bound_bound_cuts_the_only_improvement() {
    // The bound counts one more bin for the second item although it fits
    // into the first bin, so no packing better than one bin per item is found.
    assert_eq!(bin_packing_branch_bound(&vec![3, 3], 10), (2, vec![]));
}

#[test]
fn branch_bound_skips_bins_of_equal_load() {
    let (count, bins) = bin_packing_branch_bound(&vec![2, 2, 2, 2, 2, 2], 4);
    assert_eq!(count, 3);
    assert_eq!(bins, vec![vec![2, 2], vec![2, 2], vec![2, 2]]);
}

#[test]
fn branch_bound_never_beats_backtracking() {
    for (items, cap) in [
        (vec![4, 8, 1, 4, 2, 1], 10),
        (vec![6, 5, 4, 3, 2], 10),
        (vec![3, 3], 10),
        (vec![7, 2, 2, 5, 4, 1], 9),
    ] {
        let (bb, _) = bin_packing_branch_bound(&items, cap);
        let (bt, _) = bin_packing_backtracking(&items, cap);
        assert!(bb >= bt);
    }
}

#[test]
fn branch_bound_no_items() {
    assert_eq!(bin_packing_branch_bound(&vec![], 10), (0, vec![]));
}

#[test]
fn first_fit_takes_the_first_bin_with_room() {
    let (bins, sums) = first_fit(&vec![4, 8, 1, 4, 2, 1], 10);
    assert_eq!(bins, vec![vec![4, 1, 4, 1], vec![8, 2]]);
    assert_eq!(sums, vec![10, 10]);
}

#[test]
fn first_fit_no_items() {
    let (bins, sums) = first_fit(&vec![], 10);
    assert!(bins.is_empty());
    assert!(sums.is_empty());
}

#[test]
fn cost_counts_bins_and_free_space() {
    let bins = vec![vec![4, 1], vec![8, 2], vec![3]];
    let sums = vec![5, 10, 3];
    assert_eq!(compute_cost(&bins, &sums, 10), 30_012);
}

#[test]
fn cost_of_a_full_packing() {
    let (bins, sums) = first_fit(&vec![4, 8, 1, 4, 2, 1], 10);
    assert_eq!(compute_cost(&bins, &sums, 10), 20_000);
}

#[test]
fn neighbors_keep_items_and_sums() {
    let mut rng = rand::rng();
    let items = vec![7, 2, 2, 5, 4, 1, 9, 3, 6];
    let capacity = 10;
    let (mut bins, mut sums) = first_fit(&items, capacity);
    let mut expected = items.clone();
    expected.sort();
    for _ in 0..500 {
        let (nb, ns) = generate_neighbor(&bins, &sums, capacity, &mut rng);
        assert_eq!(sorted_items(&nb), expected);
        assert_eq!(nb.len(), ns.len());
        for (b, s) in nb.iter().zip(ns.iter()) {
            assert!(!b.is_empty());
            assert_eq!(b.iter().sum::<i32>(), *s);
            assert!(*s <= capacity);
        }
        bins = nb;
        sums = ns;
    }
}

#[test]
fn neighbor_of_a_single_bin_keeps_one_bin() {
    let mut rng = rand::rng();
    let bins = vec![vec![3, 4]];
    let sums = vec![7];
    for _ in 0..50 {
        // Only the reinsertion applies: it may reorder the bin's items.
        let (nb, ns) = generate_neighbor(&bins, &sums, 10, &mut rng);
        assert_eq!(nb.len(), 1);
        assert_eq!(sorted_items(&nb), vec![3, 4]);
        assert_eq!(ns, sums);
    }
}

#[test]
fn neighbor_of_no_bins_is_empty() {
    let mut rng = rand::rng();
    let (nb, ns) = generate_neighbor(&vec![], &vec![], 10, &mut rng);
    assert!(nb.is_empty());
    assert!(ns.is_empty());
}

#[test]
fn swap_exchanges_items_that_fit() {
    let mut bins = vec![vec![4, 1], vec![8, 2], vec![3]];
    let mut sums = vec![5, 10, 3];
    swap_items(&mut bins, &mut sums, 10, 0, 0, 1, 0);
    assert_eq!(bins, vec![vec![8, 1], vec![4, 2], vec![3]]);
    assert_eq!(sums, vec![9, 6, 3]);
}

#[test]
fn swap_refused_when_a_bin_overflows() {
    let mut bins = vec![vec![4, 1], vec![8, 2]];
    let mut sums = vec![5, 10];
    swap_items(&mut bins, &mut sums, 10, 0, 1, 1, 0);
    assert_eq!(bins, vec![vec![4, 1], vec![8, 2]]);
    assert_eq!(sums, vec![5, 10]);
}

#[test]
fn relocate_moves_an_item_to_the_end_of_another_bin() {
    let mut bins = vec![vec![4, 1], vec![8, 2], vec![3]];
    let mut sums = vec![5, 10, 3];
    relocate_item(&mut bins, &mut sums, 10, 0, 0, 2);
    assert_eq!(bins, vec![vec![1], vec![8, 2], vec![3, 4]]);
    assert_eq!(sums, vec![1, 10, 7]);
}

#[test]
fn relocate_drops_the_emptied_bin() {
    let mut bins = vec![vec![4], vec![8, 2], vec![3]];
    let mut sums = vec![4, 10, 3];
    relocate_item(&mut bins, &mut sums, 10, 0, 0, 2);
    assert_eq!(bins, vec![vec![3, 4], vec![8, 2]]);
    assert_eq!(sums, vec![7, 10]);
}

#[test]
fn relocate_refused_without_room() {
    let mut bins = vec![vec![4, 1], vec![8, 2], vec![3]];
    let mut sums = vec![5, 10, 3];
    relocate_item(&mut bins, &mut sums, 10, 2, 0, 1);
    assert_eq!(bins, vec![vec![4, 1], vec![8, 2], vec![3]]);
    assert_eq!(sums, vec![5, 10, 3]);
}

#[test]
fn first_fit_into_existing_bins() {
    let mut bins = vec![vec![4, 1], vec![8, 2]];
    let mut sums = vec![5, 10];
    place_all_first_fit(&mut bins, &mut sums, 10, &vec![3, 6, 2]);
    assert_eq!(bins, vec![vec![4, 1, 3, 2], vec![8, 2], vec![6]]);
    assert_eq!(sums, vec![10, 10, 6]);
}

#[test]
fn neighbors_of_a_packing_with_large_sizes() {
    let mut rng = rand::rng();
    let bins = vec![vec![1_000_000_000], vec![1], vec![1]];
    let sums = vec![1_000_000_000, 1, 1];
    for _ in 0..100 {
        let (nb, ns) = generate_neighbor(&bins, &sums, 1_000_000_000, &mut rng);
        assert_eq!(sorted_items(&nb), vec![1, 1, 1_000_000_000]);
        assert!(nb.len() >= 2 && nb.len() <= 3);
        for (b, s) in nb.iter().zip(ns.iter()) {
            assert!(!b.is_empty());
            assert_eq!(b.iter().sum::<i32>(), *s);
        }
    }
}

#[test]
fn neighbor_always_moves_when_every_move_changes_the_packing() {
    let mut rng = rand::rng();
    let bins = vec![vec![1], vec![2]];
    let sums = vec![1, 2];
    for _ in 0..100 {
        let (nb, _) = generate_neighbor(&bins, &sums, 10, &mut rng);
        assert_ne!(nb, bins);
    }
}

#[test]
fn fewer_bins_cost_less() {
    let a = vec![vec![4, 1, 4, 1], vec![8, 2]];
    let b = vec![vec![4, 1], vec![4, 1], vec![8, 2]];
    assert!(compute_cost(&a, &vec![10, 10], 10) < compute_cost(&b, &vec![5, 5, 10], 10));
}

#[test]
fn branch_bound_with_negative_sizes() {
    assert_eq!(bin_packing_branch_bound(&vec![5, -3], 10), (1, vec![vec![5, -3]]));
    assert_eq!(
        bin_packing_branch_bound(&vec![4, -2, 3, -1, 6], 5),
        (3, vec![vec![6, -1, -2], vec![4], vec![3]])
    );
}

#[test]
fn backtracking_with_negative_sizes() {
    assert_eq!(
        bin_packing_backtracking(&vec![4, -2, 3, -1, 6], 5),
        (3, vec![vec![6, -1, -2], vec![4], vec![3]])
    );
}

#[test]
fn first_fit_with_large_sizes() {
    let (bins, sums) = first_fit(&vec![1_500_000_000, 600_000_000, 1], 2_000_000_000);
    assert_eq!(bins, vec![vec![1_500_000_000, 1], vec![600_000_000]]);
    assert_eq!(sums, vec![1_500_000_001, 600_000_000]);
}

#[test]
fn apply_keep_changes_nothing() {
    let mut bins = vec![vec![4, 1], vec![8, 2]];
    let mut sums = vec![5, 10];
    apply_move(&mut bins, &mut sums, 10, &Move::Keep);
    assert_eq!(bins, vec![vec![4, 1], vec![8, 2]]);
    assert_eq!(sums, vec![5, 10]);
}

#[test]
fn apply_exchange_swaps_the_named_items() {
    let mut bins = vec![vec![4, 1], vec![8, 2], vec![3]];
    let mut sums = vec![5, 10, 3];
    apply_move(&mut bins, &mut sums, 10, &Move::Exchange { b1: 0, i1: 1, b2: 2, i2: 0 });
    assert_eq!(bins, vec![vec![4, 3], vec![8, 2], vec![1]]);
    assert_eq!(sums, vec![7, 10, 1]);
}

#[test]
fn apply_exchange_refused_over_capacity() {
    let mut bins = vec![vec![4, 1], vec![8, 2]];
    let mut sums = vec![5, 10];
    apply_move(&mut bins, &mut sums, 10, &Move::Exchange { b1: 0, i1: 1, b2: 1, i2: 0 });
    assert_eq!(bins, vec![vec![4, 1], vec![8, 2]]);
    assert_eq!(sums, vec![5, 10]);
}

#[test]
fn apply_relocate_moves_the_named_item() {
    let mut bins = vec![vec![4, 1], vec![8], vec![3]];
    let mut sums = vec![5, 8, 3];
    apply_move(&mut bins, &mut sums, 10, &Move::Relocate { src: 0, idx: 0, dst: 2 });
    assert_eq!(bins, vec![vec![1], vec![8], vec![3, 4]]);
    assert_eq!(sums, vec![1, 8, 7]);
}

#[test]
fn apply_relocate_drops_the_emptied_bin() {
    let mut bins = vec![vec![2], vec![8], vec![3]];
    let mut sums = vec![2, 8, 3];
    apply_move(&mut bins, &mut sums, 10, &Move::Relocate { src: 0, idx: 0, dst: 1 });
    assert_eq!(bins, vec![vec![3], vec![8, 2]]);
    assert_eq!(sums, vec![3, 10]);
}

#[test]
fn apply_reinsert_puts_items_back_in_the_given_order() {
    let mut bins = vec![vec![5, 3], vec![6], vec![7]];
    let mut sums = vec![8, 6, 7];
    apply_move(&mut bins, &mut sums, 10, &Move::Reinsert { bin: 0, order: vec![3, 5] });
    // Bin 0 is taken out (bin 2 takes its place); 3 goes into [7], 5 into a new bin.
    assert_eq!(bins, vec![vec![7, 3], vec![6], vec![5]]);
    assert_eq!(sums, vec![10, 6, 5]);
}

#[test]
fn drawn_moves_follow_the_action() {
    let mut rng = rand::rng();
    let bins = vec![vec![4, 1], vec![8, 2], vec![3]];
    for _ in 0..50 {
        match draw_move(&bins, 0, &mut rng) {
            Move::Exchange { b1, i1, b2, i2 } => {
                assert!(b1 < 3 && b2 < 3 && b1 != b2);
                assert!(i1 < bins[b1].len() && i2 < bins[b2].len());
            }
            _ => panic!("action 0 draws an exchange"),
        }
        match draw_move(&bins, 1, &mut rng) {
            Move::Relocate { src, idx, dst } => {
                assert!(src < 3 && dst < 3 && src != dst && idx < bins[src].len());
            }
            _ => panic!("action 1 draws a move of an item"),
        }
        match draw_move(&bins, 2, &mut rng) {
            Move::Reinsert { bin, order } => {
                let mut a = order.clone();
                a.sort();
                let mut b = bins[bin].clone();
                b.sort();
                assert_eq!(a, b);
            }
            _ => panic!("action 2 draws a bin put back"),
        }
    }
}

#[test]
fn drawn_moves_on_too_few_bins_keep() {
    let mut rng = rand::rng();
    let one = vec![vec![4, 1]];
    assert!(matches!(draw_move(&one, 0, &mut rng), Move::Keep));
    assert!(matches!(draw_move(&one, 1, &mut rng), Move::Keep));
    assert!(matches!(draw_move(&vec![], 2, &mut rng), Move::Keep));
    let with_empty = vec![vec![], vec![]];
    assert!(matches!(draw_move(&with_empty, 0, &mut rng), Move::Keep));
    assert!(matches!(draw_move(&with_empty, 1, &mut rng), Move::Keep));
}
