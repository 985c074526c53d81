use word2vec::random::worker_rng;
use word2vec::window::{push_window_pairs, skipgram, skipgram_pairs};

#[test]
fn the_pairs_of_one_centre() {
    let line = vec![10, 11, 12, 13, 14];
    let mut out = vec![(0, 0)];
    push_window_pairs(&line, 2, 1, &mut out);
    assert_eq!(out, vec![(0, 0), (12, 11), (12, 13)]);
    let mut out = Vec::new();
    push_window_pairs(&line, 2, 2, &mut out);
    assert_eq!(out, vec![(12, 10), (12, 11), (12, 13), (12, 14)]);
}

#[test]
fn a_window_is_cut_at_the_ends_of_the_line() {
    let line = vec![10, 11, 12, 13, 14];
    let mut out = Vec::new();
    push_window_pairs(&line, 0, 2, &mut out);
    assert_eq!(out, vec![(10, 11), (10, 12)]);
    let mut out = Vec::new();
    push_window_pairs(&line, 4, 3, &mut out);
    assert_eq!(out, vec![(14, 11), (14, 12), (14, 13)]);
    let mut out = Vec::new();
    push_window_pairs(&line, 1, usize::MAX, &mut out);
    assert_eq!(out, vec![(11, 10), (11, 12), (11, 13), (11, 14)]);
}

#[test]
fn a_radius_of_zero_gives_no_pair() {
    let mut out = Vec::new();
    push_window_pairs(&vec![10, 11, 12], 1, 0, &mut out);
    assert_eq!(out, vec![]);
}

#[test]
fn the_pairs_of_a_line() {
    let line = vec![5, 6, 7];
    assert_eq!(
        skipgram_pairs(&line, &vec![1, 1, 1]),
        vec![(5, 6), (6, 5), (6, 7), (7, 6)]
    );
    assert_eq!(
        skipgram_pairs(&line, &vec![2, 1, 2]),
        vec![(5, 6), (5, 7), (6, 5), (6, 7), (7, 5), (7, 6)]
    );
}

#[test]
fn short_lines() {
    assert_eq!(skipgram_pairs(&vec![], &vec![]), vec![]);
    assert_eq!(skipgram_pairs(&vec![3], &vec![4]), vec![]);
    let mut rng = worker_rng(1, 1);
    assert_eq!(skipgram(&vec![], &mut rng, 5), vec![]);
    assert_eq!(skipgram(&vec![3], &mut rng, 5), vec![]);
}

#[test]
fn a_window_of_one_pairs_neighbours() {
    let mut rng = worker_rng(3, 0);
    let line = vec![1, 2, 3, 4];
    assert_eq!(
        skipgram(&line, &mut rng, 1),
        vec![(1, 2), (2, 1), (2, 3), (3, 2), (3, 4), (4, 3)]
    );
}

#[test]
fn drawn_radii_stay_within_the_window() {
    let mut rng = worker_rng(99, 2);
    let line: Vec<usize> = (0..200).collect();
    let win = 5;
    let pairs = skipgram(&line, &mut rng, win);
    // group the pairs by centre and recover the radius of each
    let mut at = 0;
    let mut seen = [false; 6];
    for centre in 0..line.len() {
        let mut contexts = Vec::new();
        while at < pairs.len() && pairs[at].0 == centre {
            contexts.push(pairs[at].1);
            at += 1;
        }
        let reach = contexts.iter().map(|c| c.abs_diff(centre)).max().unwrap();
        assert!(reach >= 1 && reach <= win);
        let radius_low = centre.saturating_sub(reach);
        let radius_high = (centre + reach).min(line.len() - 1);
        let expected: Vec<usize> = (radius_low..=radius_high).filter(|c| *c != centre).collect();
        assert_eq!(contexts, expected);
        seen[reach] = true;
    }
    assert_eq!(at, pairs.len());
    assert!(seen[1..].iter().all(|s| *s));
}

#[test]
fn the_same_seed_gives_the_same_pairs() {
    let line: Vec<usize> = (0..50).collect();
    let mut rng = worker_rng(17, 0);
    let first = skipgram(&line, &mut rng, 5);
    let mut rng = worker_rng(17, 0);
    let second = skipgram(&line, &mut rng, 5);
    assert_eq!(first, second);
    // the generator of another worker draws other radii
    let mut rng = worker_rng(17, 1);
    let other = skipgram(&line, &mut rng, 5);
    assert_ne!(first, other);
}

#[test]
fn the_seed_of_a_worker_is_the_sum_of_base_and_worker() {
    let line: Vec<usize> = (0..50).collect();
    let mut rng = worker_rng(10, 5);
    let first = skipgram(&line, &mut rng, 5);
    let mut rng = worker_rng(12, 3);
    let second = skipgram(&line, &mut rng, 5);
    assert_eq!(first, second);
    let mut rng = worker_rng(usize::MAX, 16);
    let third = skipgram(&line, &mut rng, 5);
    assert_eq!(first, third);
}
