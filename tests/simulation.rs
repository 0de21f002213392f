use card_collector::trial::{all_collected, no_flags, record_draw};
use card_collector::{
    draw, draw_value, draws_needed, merge_into, parse_list, partition, pick_index, run_simulation,
    run_trial, run_worker, summarize, Average, ItemSet, SetupError,
};
use rand::rngs::StdRng;
use rand::SeedableRng;

fn pool(weights: &[u64], targets: &[u64]) -> ItemSet {
    ItemSet::new(&weights.to_vec(), &targets.to_vec()).unwrap()
}

fn mean(a: Average) -> f64 {
    a.total as f64 / a.count as f64
}

#[test]
fn no_targets_trial_needs_no_draws() {
    let set = pool(&[5, 10, 15], &[]);
    assert_eq!(set.target_count(), 0);
    let mut rng = StdRng::seed_from_u64(1);
    for _ in 0..100 {
        assert_eq!(run_trial(&set, &mut rng), Some(0));
    }
    // The generator was never touched: it still yields what a fresh one does.
    let mut fresh = StdRng::seed_from_u64(1);
    assert_eq!(draw_value(&set, &mut rng), draw_value(&set, &mut fresh));
}

#[test]
fn no_targets_with_zero_total_weight() {
    let set = pool(&[0, 0], &[]);
    assert_eq!(set.weight_sum(), 0);
    let mut rng = StdRng::seed_from_u64(2);
    assert_eq!(run_trial(&set, &mut rng), Some(0));
    assert_eq!(run_simulation(&set, 30, 10, 9), Some(vec![0u64; 30]));
}

#[test]
fn single_target_mean_is_geometric() {
    let set = pool(&[5, 10, 15, 20, 25], &[1]);
    let results = run_simulation(&set, 50000, 10, 11).unwrap();
    assert_eq!(results.len(), 50000);
    let m = mean(summarize(&results).unwrap());
    let expected = 75.0 / 5.0;
    assert!((m - expected).abs() / expected < 0.03, "mean {}", m);
}

#[test]
fn simulation_yields_exactly_n_results() {
    let set = pool(&[5, 10, 15, 20, 25], &[2, 4]);
    assert_eq!(partition(10000, 10), vec![1000u64; 10]);
    let results = run_simulation(&set, 10000, 10, 3).unwrap();
    assert_eq!(results.len(), 10000);
    assert!(results.iter().all(|&n| n >= 2));
}

#[test]
fn partition_gives_remainder_to_last_worker() {
    assert_eq!(partition(10, 3), vec![3, 3, 4]);
    assert_eq!(partition(2, 5), vec![0, 0, 0, 0, 2]);
    assert_eq!(partition(7, 1), vec![7]);
    assert_eq!(partition(0, 4), vec![0, 0, 0, 0]);
}

#[test]
fn summarize_mean_of_one_to_four() {
    let a = summarize(&vec![1, 2, 3, 4]).unwrap();
    assert_eq!(a, Average { total: 10, count: 4 });
    assert_eq!(mean(a), 2.5);
}

#[test]
fn summarize_empty_is_no_data() {
    assert_eq!(summarize(&vec![]), None);
}

#[test]
fn summarize_large_values_do_not_overflow() {
    let a = summarize(&vec![u64::MAX, u64::MAX, 2]).unwrap();
    assert_eq!(a.total, 2 * (u64::MAX as u128) + 2);
    assert_eq!(a.count, 3);
}

#[test]
fn zero_weight_target_is_unreachable() {
    let r = ItemSet::new(&vec![5, 0, 3], &vec![2]);
    assert_eq!(r.err(), Some(SetupError::UnreachableTarget));
    // A zero-weight item that is not a target is fine.
    assert!(ItemSet::new(&vec![5, 0, 3], &vec![1, 3]).is_ok());
}

#[test]
fn invalid_selection_is_rejected() {
    assert_eq!(ItemSet::new(&vec![5, 10], &vec![3]).err(), Some(SetupError::InvalidSelection));
    assert_eq!(ItemSet::new(&vec![5, 10], &vec![0]).err(), Some(SetupError::InvalidSelection));
    // A bad selection is reported before an unreachable target.
    assert_eq!(ItemSet::new(&vec![0, 10], &vec![1, 9]).err(), Some(SetupError::InvalidSelection));
}

#[test]
fn weight_overflow_is_rejected() {
    assert_eq!(ItemSet::new(&vec![u64::MAX, 1], &vec![1]).err(), Some(SetupError::WeightOverflow));
    assert!(ItemSet::new(&vec![u64::MAX - 1, 1], &vec![1]).is_ok());
}

#[test]
fn items_carry_ids_weights_and_targets() {
    let set = pool(&[5, 10, 15], &[3, 1, 3]);
    assert_eq!(set.len(), 3);
    assert_eq!(set.weight_sum(), 30);
    assert_eq!(set.target_count(), 2);
    let it = set.item(1);
    assert_eq!((it.id, it.weight, it.is_target), (2, 10, false));
    let it = set.item(2);
    assert_eq!((it.id, it.weight, it.is_target), (3, 15, true));
}

#[test]
fn from_text_parses_then_builds() {
    let set = ItemSet::from_text("5, 10, 15, 20, 25", "1,2,3,4,5").unwrap();
    assert_eq!(set.weight_sum(), 75);
    assert_eq!(set.target_count(), 5);
    assert_eq!(ItemSet::from_text("5, x", "1").err(), Some(SetupError::Parse));
    assert_eq!(ItemSet::from_text("5, 6", "1;2").err(), Some(SetupError::Parse));
    assert_eq!(ItemSet::from_text("5, 0", "2").err(), Some(SetupError::UnreachableTarget));
    assert_eq!(ItemSet::from_text("5, 6", "3").err(), Some(SetupError::InvalidSelection));
}

#[test]
fn parse_list_accepts_spaced_and_blank_fields() {
    assert_eq!(parse_list("5, 10, 15, 20, 25"), Ok(vec![5, 10, 15, 20, 25]));
    assert_eq!(parse_list(" 7 ,, 8,\t9 ,"), Ok(vec![7, 8, 9]));
    assert_eq!(parse_list(""), Ok(vec![]));
    assert_eq!(parse_list(" , "), Ok(vec![]));
    assert_eq!(parse_list("18446744073709551615"), Ok(vec![u64::MAX]));
    assert_eq!(parse_list("+5, +0"), Ok(vec![5, 0]));
}

#[test]
fn parse_list_trims_unicode_whitespace() {
    assert_eq!(parse_list("\u{a0}5\u{3000}, \u{2003}7 \u{85}"), Ok(vec![5, 7]));
    assert_eq!(parse_list("\u{1680},\u{202f}\u{205f}"), Ok(vec![]));
    assert_eq!(parse_list("\u{2028}+12\u{2029}"), Ok(vec![12]));
    assert_eq!(parse_list("5\u{a0}6"), Err(SetupError::Parse));
    // Not white space in Unicode: a zero-width space.
    assert_eq!(parse_list("\u{200b}5"), Err(SetupError::Parse));
}

#[test]
fn parse_list_rejects_non_numbers() {
    assert_eq!(parse_list("1, -2"), Err(SetupError::Parse));
    assert_eq!(parse_list("1 2"), Err(SetupError::Parse));
    assert_eq!(parse_list("abc"), Err(SetupError::Parse));
    assert_eq!(parse_list("18446744073709551616"), Err(SetupError::Parse));
    assert_eq!(parse_list("3.5"), Err(SetupError::Parse));
    assert_eq!(parse_list("+"), Err(SetupError::Parse));
    assert_eq!(parse_list("++5"), Err(SetupError::Parse));
    assert_eq!(parse_list("+ 5"), Err(SetupError::Parse));
}

#[test]
fn pick_index_follows_cumulative_weights() {
    let set = pool(&[5, 10, 15, 20, 25], &[1]);
    assert_eq!(pick_index(&set, 1), 0);
    assert_eq!(pick_index(&set, 5), 0);
    assert_eq!(pick_index(&set, 6), 1);
    assert_eq!(pick_index(&set, 15), 1);
    assert_eq!(pick_index(&set, 16), 2);
    assert_eq!(pick_index(&set, 51), 4);
    assert_eq!(pick_index(&set, 75), 4);
}

#[test]
fn pick_index_skips_zero_weight_items() {
    let set = pool(&[3, 0, 2], &[]);
    assert_eq!(pick_index(&set, 3), 0);
    assert_eq!(pick_index(&set, 4), 2);
}

#[test]
fn sampler_frequencies_match_weights() {
    let weights = [5u64, 10, 15, 20, 25];
    let set = pool(&weights, &[1]);
    let mut rng = StdRng::seed_from_u64(42);
    let draws = 200000;
    let mut counts = [0u64; 5];
    for _ in 0..draws {
        counts[draw(&set, &mut rng)] += 1;
    }
    let total: u64 = weights.iter().sum();
    for i in 0..5 {
        let observed = counts[i] as f64 / draws as f64;
        let expected = weights[i] as f64 / total as f64;
        assert!((observed - expected).abs() < 0.01, "item {}: {} vs {}", i + 1, observed, expected);
    }
}

#[test]
fn draw_value_spans_the_whole_range() {
    let set = pool(&[5, 10, 15, 20, 25], &[1]);
    let mut rng = StdRng::seed_from_u64(5);
    let mut seen_low = false;
    let mut seen_high = false;
    for _ in 0..10000 {
        let v = draw_value(&set, &mut rng);
        assert!((1..=75).contains(&v));
        seen_low |= v == 1;
        seen_high |= v == 75;
    }
    assert!(seen_low && seen_high);
}

#[test]
fn draws_needed_counts_to_first_completion() {
    let set = pool(&[1, 1, 1], &[1, 2]);
    // values 1 and 2 select the two targets, 3 the other item.
    assert_eq!(draws_needed(&set, &vec![1, 1, 3, 2, 1]), Some(4));
    assert_eq!(draws_needed(&set, &vec![2, 1]), Some(2));
    assert_eq!(draws_needed(&set, &vec![1, 3, 3]), None);
    assert_eq!(draws_needed(&set, &vec![]), None);
    let none = pool(&[1, 1], &[]);
    assert_eq!(draws_needed(&none, &vec![1, 2]), Some(0));
}

#[test]
fn run_worker_runs_its_share() {
    let set = pool(&[1, 3], &[1]);
    let mut rng = StdRng::seed_from_u64(8);
    let v = run_worker(&set, 250, &mut rng).unwrap();
    assert_eq!(v.len(), 250);
    assert!(v.iter().all(|&n| n >= 1));
}

#[test]
fn merge_into_appends_in_one_step() {
    let mut shared = vec![4, 5];
    merge_into(&mut shared, vec![6, 7, 8]);
    assert_eq!(shared, vec![4, 5, 6, 7, 8]);
}

#[test]
fn simulation_is_reproducible_under_a_seed() {
    let set = pool(&[5, 10, 15], &[1, 3]);
    let a = run_simulation(&set, 500, 10, 77).unwrap();
    let b = run_simulation(&set, 500, 10, 77).unwrap();
    assert_eq!(a, b);
    let c = run_simulation(&set, 500, 10, 78).unwrap();
    assert_ne!(a, c);
}

#[test]
fn end_to_end_all_items() {
    let set = ItemSet::from_text("5, 10, 15, 20, 25", "1,2,3,4,5").unwrap();
    let results = run_simulation(&set, 20000, 10, 2024).unwrap();
    assert_eq!(results.len(), 20000);
    assert!(results.iter().all(|&n| n >= 5));
    let m = mean(summarize(&results).unwrap());
    assert!(m.is_finite());
    // Collecting every item takes longer than waiting for the rarest alone (75 / 5).
    assert!(m > 15.0, "mean {}", m);
}

#[test]
fn trial_steps_flag_targets_only() {
    let set = pool(&[2, 3, 5], &[1, 3]);
    let mut flags = no_flags(set.len());
    assert_eq!(flags, vec![false, false, false]);
    assert!(!all_collected(&set, &flags));
    record_draw(&set, &mut flags, 4);
    assert_eq!(flags, vec![false, false, false]);
    record_draw(&set, &mut flags, 10);
    assert_eq!(flags, vec![false, false, true]);
    assert!(!all_collected(&set, &flags));
    record_draw(&set, &mut flags, 2);
    assert_eq!(flags, vec![true, false, true]);
    assert!(all_collected(&set, &flags));
}
