use word2vec::negative::{negative_table, ordered_table, NEGATIVE_TABLE_SIZE};
use word2vec::numeric::{isqrt, keeps_draw, word_keep_level, word_weight, ALWAYS};
use word2vec::random::worker_rng;
use word2vec::W2vError;

#[test]
fn square_roots_are_rounded_down() {
    assert_eq!(isqrt(0), 0);
    assert_eq!(isqrt(1), 1);
    assert_eq!(isqrt(2), 1);
    assert_eq!(isqrt(3), 1);
    assert_eq!(isqrt(4), 2);
    assert_eq!(isqrt(15), 3);
    assert_eq!(isqrt(16), 4);
    assert_eq!(isqrt(17), 4);
    assert_eq!(isqrt(100000000000000000000), 10000000000);
    assert_eq!(isqrt(18446744073709551615), 4294967295);
    assert_eq!(isqrt(18446744073709551616), 4294967296);
    assert_eq!(isqrt(u128::MAX), u64::MAX);
}

#[test]
fn weights_are_counts_to_the_power_of_three_quarters() {
    assert_eq!(word_weight(0), 0);
    assert_eq!(word_weight(1), 256);
    assert_eq!(word_weight(2), 430);
    assert_eq!(word_weight(5), 855);
    assert_eq!(word_weight(16), 8 * 256);
    assert_eq!(word_weight(81), 27 * 256);
    assert_eq!(word_weight(1000), 45523);
    assert_eq!(word_weight(4294967295), 4294967295);
    assert_eq!(word_weight(u64::MAX), 72057594037927935);
}

#[test]
fn a_weight_is_the_fourth_root_of_the_cube_or_one_less() {
    for count in (0..3000u64).chain([4095, 65536, 1 << 20, 123456789, (1 << 31) - 1]) {
        let w = word_weight(count) as u128;
        let cube = (count as u128).pow(3) << 32;
        assert!(w.pow(4) <= cube);
        assert!(cube < (w + 2).pow(4));
    }
}

#[test]
fn keep_levels() {
    // frequency 0.01 and threshold 0.0001: the chance is 0.1 + 0.01
    assert_eq!(word_keep_level(10000, 1000000, 100000), 472446396);
    assert_eq!(word_keep_level(500, 1000, 100000), 61598986);
    assert_eq!(word_keep_level(3, 6, 100000000), 2779761225);
    assert_eq!(word_keep_level(2, 6, 100000000), 3640940659);
}

#[test]
fn rare_words_are_always_kept() {
    assert_eq!(word_keep_level(1, 1000, 1000000000), ALWAYS);
    assert_eq!(word_keep_level(1, 6, 100000000), ALWAYS);
    assert_eq!(word_keep_level(3, 6, 250000000), ALWAYS);
    assert_eq!(word_keep_level(1, u64::MAX, u32::MAX), ALWAYS);
    assert_eq!(ALWAYS, 1 << 32);
}

#[test]
fn a_threshold_of_zero_keeps_nothing() {
    assert_eq!(word_keep_level(5, 10, 0), 0);
    assert!(!keeps_draw(0, 0));
}

#[test]
fn a_draw_below_the_level_keeps_the_word() {
    assert!(keeps_draw(10, 9));
    assert!(!keeps_draw(10, 10));
    assert!(keeps_draw(ALWAYS, u32::MAX));
}

#[test]
fn slots_are_dealt_out_by_weight() {
    assert_eq!(ordered_table(&vec![16, 1, 1], 10).unwrap(), vec![0, 0, 0, 0, 0, 0, 0, 0, 1, 2]);
    assert_eq!(ordered_table(&vec![1, 1, 1], 10).unwrap(), vec![0, 0, 0, 0, 1, 1, 1, 2, 2, 2]);
    assert_eq!(ordered_table(&vec![5, 5], 7).unwrap(), vec![0, 0, 0, 0, 1, 1, 1]);
    assert_eq!(
        ordered_table(&vec![3, 2, 1], 20).unwrap(),
        vec![0, 0, 0, 0, 0, 0, 0, 0, 0, 0, 1, 1, 1, 1, 1, 1, 2, 2, 2, 2]
    );
}

#[test]
fn a_table_without_slots_is_empty() {
    assert_eq!(ordered_table(&vec![3, 2, 1], 0).unwrap(), Vec::<usize>::new());
}

#[test]
fn a_word_without_weight_holds_no_slot() {
    assert_eq!(ordered_table(&vec![0, 4, 0], 3).unwrap(), vec![1, 1, 1]);
}

#[test]
fn no_weight_gives_no_table() {
    assert!(matches!(ordered_table(&vec![], 10), Err(W2vError::RuntimeError)));
    assert!(matches!(ordered_table(&vec![0, 0], 10), Err(W2vError::RuntimeError)));
    let mut rng = worker_rng(0, 0);
    assert!(matches!(negative_table(&vec![], 10, &mut rng), Err(W2vError::RuntimeError)));
}

#[test]
fn too_much_weight_gives_no_table() {
    // each weight is near 2^56: 300 of them pass 2^64
    let counts = vec![u64::MAX; 300];
    assert!(matches!(ordered_table(&counts, 10), Err(W2vError::RuntimeError)));
}

#[test]
fn the_shuffled_table_holds_each_word_as_often_as_the_ordered_one() {
    let counts = vec![50, 20, 10, 5, 1];
    let ordered = ordered_table(&counts, 1000).unwrap();
    let mut rng = worker_rng(42, 0);
    let table = negative_table(&counts, 1000, &mut rng).unwrap();
    assert_eq!(table.len(), 1000);
    for word in 0..counts.len() {
        assert_eq!(
            table.iter().filter(|i| **i == word).count(),
            ordered.iter().filter(|i| **i == word).count()
        );
    }
    let mut sorted = table.clone();
    sorted.sort();
    assert_eq!(sorted, ordered);
    // a shuffle that left a thousand slots in order would be no shuffle
    assert_ne!(table, ordered);
}

#[test]
fn shares_are_in_proportion_to_the_weights() {
    let counts: Vec<u64> = vec![1000, 300, 120, 40, 7, 7, 2, 1];
    let size = 100000;
    let table = ordered_table(&counts, size).unwrap();
    let total: u64 = counts.iter().map(|c| word_weight(*c)).sum();
    for (word, count) in counts.iter().enumerate() {
        let held = table.iter().filter(|i| **i == word).count() as i128;
        let exact = word_weight(*count) as i128 * size as i128;
        assert!((held * total as i128 - exact).abs() < total as i128);
    }
    // against the power itself, within the rounding of the weights
    let sum: f64 = counts.iter().map(|c| (*c as f64).powf(0.75)).sum();
    for (word, count) in counts.iter().enumerate() {
        let held = table.iter().filter(|i| **i == word).count() as f64 / size as f64;
        let share = (*count as f64).powf(0.75) / sum;
        assert!((held - share).abs() < 2e-3);
    }
}

#[test]
fn the_size_of_the_table_of_a_run() {
    assert_eq!(NEGATIVE_TABLE_SIZE, 10_000_000);
}
