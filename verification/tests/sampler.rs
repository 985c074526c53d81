use std::sync::Arc;
use word2vec::sampler::NegativeSampler;

#[test]
fn draws_walk_the_table() {
    let mut sampler = NegativeSampler::new(Arc::new(vec![4, 5, 6]));
    assert_eq!(sampler.table_len(), 3);
    assert_eq!(sampler.position(), 0);
    assert_eq!(sampler.get_negative(9), Some(4));
    assert_eq!(sampler.position(), 1);
    assert_eq!(sampler.get_negative(9), Some(5));
    assert_eq!(sampler.get_negative(9), Some(6));
    assert_eq!(sampler.position(), 0);
    assert_eq!(sampler.get_negative(9), Some(4));
}

#[test]
fn the_target_is_passed_over() {
    let mut sampler = NegativeSampler::new(Arc::new(vec![1, 1, 2, 1, 3]));
    assert_eq!(sampler.get_negative(1), Some(2));
    assert_eq!(sampler.position(), 3);
    assert_eq!(sampler.get_negative(1), Some(3));
    assert_eq!(sampler.position(), 0);
    assert_eq!(sampler.get_negative(1), Some(2));
}

#[test]
fn a_draw_wraps_round_the_end() {
    let mut sampler = NegativeSampler::new(Arc::new(vec![7, 1, 1]));
    assert_eq!(sampler.get_negative(0), Some(7));
    assert_eq!(sampler.get_negative(1), Some(7));
    assert_eq!(sampler.position(), 1);
}

#[test]
fn a_table_of_targets_gives_no_draw() {
    let mut sampler = NegativeSampler::new(Arc::new(vec![3, 3, 3]));
    assert_eq!(sampler.get_negative(5), Some(3));
    assert_eq!(sampler.position(), 1);
    assert_eq!(sampler.get_negative(3), None);
    assert_eq!(sampler.position(), 1);
    let mut negatives = vec![1, 2];
    sampler.draw_negatives(3, 4, &mut negatives);
    assert_eq!(negatives, Vec::<usize>::new());
    assert_eq!(sampler.position(), 1);
    let mut steps = vec![(8, false)];
    sampler.negative_sampling(3, 4, &mut steps);
    assert_eq!(steps, vec![(3, true)]);
    assert_eq!(sampler.position(), 1);
}

#[test]
fn an_empty_table_gives_no_draw() {
    let mut sampler = NegativeSampler::new(Arc::new(vec![]));
    assert_eq!(sampler.get_negative(0), None);
    assert_eq!(sampler.position(), 0);
}

#[test]
fn the_negatives_of_one_example() {
    let mut sampler = NegativeSampler::new(Arc::new(vec![0, 1, 2, 1, 0]));
    let mut negatives = Vec::new();
    sampler.draw_negatives(1, 5, &mut negatives);
    assert_eq!(negatives, vec![0, 2, 0, 0, 2]);
    assert_eq!(sampler.position(), 3);
    sampler.draw_negatives(0, 2, &mut negatives);
    assert_eq!(negatives, vec![1, 1]);
    assert_eq!(sampler.position(), 2);
    sampler.draw_negatives(0, 0, &mut negatives);
    assert_eq!(negatives, Vec::<usize>::new());
    assert_eq!(sampler.position(), 2);
}

#[test]
fn the_steps_of_one_example() {
    let mut sampler = NegativeSampler::new(Arc::new(vec![0, 1, 2, 1, 0]));
    let mut steps = Vec::new();
    sampler.negative_sampling(1, 3, &mut steps);
    assert_eq!(steps, vec![(1, true), (0, false), (2, false), (0, false)]);
    assert_eq!(sampler.position(), 0);
    sampler.negative_sampling(2, 1, &mut steps);
    assert_eq!(steps, vec![(2, true), (0, false)]);
    assert_eq!(sampler.position(), 1);
    sampler.negative_sampling(2, 0, &mut steps);
    assert_eq!(steps, vec![(2, true)]);
    assert_eq!(sampler.position(), 1);
}

#[test]
fn no_negative_is_the_target() {
    let table: Vec<usize> = (0..1000).map(|i| (i * 7 + i / 13) % 5).collect();
    let mut sampler = NegativeSampler::new(Arc::new(table));
    let mut negatives = Vec::new();
    for target in 0..5 {
        sampler.draw_negatives(target, 300, &mut negatives);
        assert_eq!(negatives.len(), 300);
        assert!(negatives.iter().all(|n| *n != target));
    }
}

#[test]
fn workers_share_one_table() {
    let table = Arc::new(vec![1, 2, 3]);
    let mut first = NegativeSampler::new(table.clone());
    let mut second = NegativeSampler::new(table.clone());
    assert_eq!(first.get_negative(0), Some(1));
    assert_eq!(first.get_negative(0), Some(2));
    assert_eq!(second.get_negative(0), Some(1));
    assert_eq!(Arc::strong_count(&table), 3);
}
