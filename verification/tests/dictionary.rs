use word2vec::dictionary::{Dict, DictBuilder};
use word2vec::random::worker_rng;
use word2vec::W2vError;

fn records(lines: &[&str]) -> Vec<Vec<u8>> {
    lines.iter().map(|l| l.as_bytes().to_vec()).collect()
}

fn words_of(dict: &Dict) -> Vec<String> {
    (0..dict.nsize()).map(|i| String::from_utf8(dict.get_word(i).clone()).unwrap()).collect()
}

fn counts_of(dict: &Dict) -> Vec<u64> {
    (0..dict.nsize()).map(|i| dict.get_count(i)).collect()
}

#[test]
fn words_are_ordered_by_falling_count() {
    let dict = Dict::build(&records(&["a b a c a b"]), 1, 0, None).unwrap();
    assert_eq!(words_of(&dict), vec!["a", "b", "c"]);
    assert_eq!(counts_of(&dict), vec![3, 2, 1]);
    assert_eq!(dict.ntokens(), 6);
    assert_eq!(dict.nsize(), 3);
}

#[test]
fn the_more_frequent_word_comes_first_even_if_seen_later() {
    let dict = Dict::build(&records(&["c b b a a a"]), 1, 0, None).unwrap();
    assert_eq!(words_of(&dict), vec!["a", "b", "c"]);
    assert_eq!(counts_of(&dict), vec![3, 2, 1]);
}

#[test]
fn ties_are_broken_by_first_seen_order() {
    let corpus = records(&["x y z y", "x w w"]);
    let dict = Dict::build(&corpus, 1, 0, None).unwrap();
    assert_eq!(words_of(&dict), vec!["x", "y", "w", "z"]);
    assert_eq!(counts_of(&dict), vec![2, 2, 2, 1]);
}

#[test]
fn pruning_keeps_exactly_the_words_that_reach_the_minimum() {
    let corpus = records(&["x y z y", "x w w", "v v v"]);
    let dict = Dict::build(&corpus, 2, 0, None).unwrap();
    assert_eq!(words_of(&dict), vec!["v", "x", "y", "w"]);
    assert_eq!(counts_of(&dict), vec![3, 2, 2, 2]);
    assert_eq!(dict.lookup(b"z"), None);
    // the words that were dropped still count as words of the corpus
    assert_eq!(dict.ntokens(), 10);
    let dict = Dict::build(&corpus, 3, 0, None).unwrap();
    assert_eq!(words_of(&dict), vec!["v"]);
}

#[test]
fn a_minimum_of_zero_keeps_every_word() {
    let dict = Dict::build(&records(&["b a"]), 0, 0, None).unwrap();
    assert_eq!(words_of(&dict), vec!["b", "a"]);
}

#[test]
fn an_empty_vocabulary_is_an_error() {
    let corpus = records(&["a b c", "a"]);
    assert!(matches!(Dict::build(&corpus, 3, 0, None), Err(W2vError::Vocabulary)));
    assert!(matches!(Dict::build(&records(&[]), 1, 0, None), Err(W2vError::Vocabulary)));
    assert!(matches!(Dict::build(&records(&["  \t "]), 0, 0, None), Err(W2vError::Vocabulary)));
    assert!(matches!(Dict::build(&records(&["a"]), 1, 0, Some(0)), Err(W2vError::Vocabulary)));
}

#[test]
fn the_row_cap_limits_the_records_that_are_counted() {
    let corpus = records(&["a a", "b b b", "c c c c"]);
    let dict = Dict::build(&corpus, 1, 0, Some(2)).unwrap();
    assert_eq!(words_of(&dict), vec!["b", "a"]);
    assert_eq!(dict.ntokens(), 5);
    let dict = Dict::build(&corpus, 1, 0, Some(7)).unwrap();
    assert_eq!(words_of(&dict), vec!["c", "b", "a"]);
}

#[test]
fn lookup_finds_each_word_at_its_index() {
    let dict = Dict::build(&records(&["a b a c a b"]), 1, 0, None).unwrap();
    assert_eq!(dict.lookup(b"a"), Some(0));
    assert_eq!(dict.lookup(b"b"), Some(1));
    assert_eq!(dict.lookup(b"c"), Some(2));
    assert_eq!(dict.lookup(b"d"), None);
    assert_eq!(dict.lookup(b""), None);
    assert_eq!(dict.lookup(b"ab"), None);
}

#[test]
fn many_words_are_all_found_again() {
    let mut line = String::new();
    for i in 0..5000 {
        for _ in 0..(1 + i % 3) {
            line.push_str(&format!("w{} ", i));
        }
    }
    let dict = Dict::build(&records(&[&line]), 1, 0, None).unwrap();
    assert_eq!(dict.nsize(), 5000);
    for i in 0..5000 {
        let word = format!("w{}", i);
        let index = dict.lookup(word.as_bytes()).unwrap();
        assert_eq!(dict.get_word(index), &word.as_bytes().to_vec());
        assert_eq!(dict.get_count(index), 1 + (i % 3) as u64);
    }
    for i in 1..dict.nsize() {
        assert!(dict.get_count(i - 1) >= dict.get_count(i));
    }
    // among the words with one count the order is that of the corpus
    assert_eq!(dict.get_word(0), &b"w2".to_vec());
    assert_eq!(dict.get_word(1), &b"w5".to_vec());
}

#[test]
fn the_builder_counts_record_by_record() {
    let mut builder = DictBuilder::new(Some(2));
    assert!(!builder.is_full());
    assert_eq!(builder.add_record(b"a b").unwrap(), true);
    assert_eq!(builder.ntokens(), 2);
    assert_eq!(builder.add_record(b"b c c").unwrap(), true);
    assert!(builder.is_full());
    assert_eq!(builder.add_record(b"d d d d").unwrap(), false);
    assert_eq!(builder.ntokens(), 5);
    let dict = builder.finish(1, 0).unwrap();
    assert_eq!(words_of(&dict), vec!["b", "c", "a"]);
    assert_eq!(counts_of(&dict), vec![2, 2, 1]);
}

#[test]
fn a_builder_without_cap_is_never_full() {
    let mut builder = DictBuilder::new(None);
    for _ in 0..10 {
        assert_eq!(builder.add_record(b"a").unwrap(), true);
        assert!(!builder.is_full());
    }
    assert_eq!(builder.ntokens(), 10);
}

#[test]
fn a_line_is_read_with_given_draws() {
    // counts 3, 2, 1 of 6 words; threshold one tenth
    let dict = Dict::build(&records(&["a b a c a b"]), 1, 100_000_000, None).unwrap();
    // keep levels: a 2779761225, b 3640940659, c always
    let mut out = vec![9];
    let n = dict.read_line_with(b"b x a c a", &[3640940658, 0, 2779761225, u32::MAX, 2779761224], &mut out);
    assert_eq!(n, 5);
    assert_eq!(out, vec![9, 1, 2, 0]);
    let mut out = Vec::new();
    let n = dict.read_line_with(b"b x a c a", &[3640940659, 0, 0, 0, 0], &mut out);
    assert_eq!(n, 5);
    assert_eq!(out, vec![0, 2, 0]);
}

#[test]
fn missing_draws_count_as_zero() {
    let dict = Dict::build(&records(&["a b a c a b"]), 1, 100_000_000, None).unwrap();
    let mut out = Vec::new();
    assert_eq!(dict.read_line_with(b"a b c d", &[], &mut out), 4);
    assert_eq!(out, vec![0, 1, 2]);
}

#[test]
fn a_threshold_of_zero_drops_every_word() {
    let dict = Dict::build(&records(&["a b a c a b"]), 1, 0, None).unwrap();
    let mut out = Vec::new();
    assert_eq!(dict.read_line_with(b"a b c", &[0, 0, 0], &mut out), 3);
    assert_eq!(out, Vec::<usize>::new());
    let mut rng = worker_rng(1, 0);
    assert_eq!(dict.read_line(b"a b c a a", &mut rng, &mut out), 5);
    assert_eq!(out, Vec::<usize>::new());
}

#[test]
fn a_threshold_of_one_keeps_every_word() {
    let dict = Dict::build(&records(&["a b a c a b"]), 1, 1_000_000_000, None).unwrap();
    let mut out = Vec::new();
    let mut rng = worker_rng(1, 0);
    assert_eq!(dict.read_line(b"c x b  a\ta\n", &mut rng, &mut out), 5);
    assert_eq!(out, vec![2, 1, 0, 0]);
}

#[test]
fn one_word_alone() {
    assert_eq!(
        Dict::build(&records(&["a"]), 1, 1_000_000_000, None).unwrap().keep_word(b"a", u32::MAX),
        Some(0)
    );
    let dict = Dict::build(&records(&["a b a c a b"]), 1, 100_000_000, None).unwrap();
    assert_eq!(dict.keep_word(b"a", 2779761224), Some(0));
    assert_eq!(dict.keep_word(b"a", 2779761225), None);
    assert_eq!(dict.keep_word(b"zz", 0), None);
}

#[test]
fn a_line_read_with_a_generator_keeps_words_in_order() {
    let dict = Dict::build(&records(&["a b a c a b"]), 1, 100_000_000, None).unwrap();
    let mut rng = worker_rng(7, 3);
    let text = b"a b c a b c a b c a b c x y z";
    let mut out = Vec::new();
    let n = dict.read_line(text, &mut rng, &mut out);
    assert_eq!(n, 15);
    // what is kept is a part of the words of the vocabulary, in their order
    let full = [0usize, 1, 2, 0, 1, 2, 0, 1, 2, 0, 1, 2];
    let mut at = 0;
    for index in &out {
        while at < full.len() && full[at] != *index {
            at += 1;
        }
        assert!(at < full.len());
        at += 1;
    }
    // c is always kept
    assert_eq!(out.iter().filter(|i| **i == 2).count(), 4);
}

#[test]
fn the_same_seed_gives_the_same_lines() {
    let dict = Dict::build(&records(&["a b a c a b"]), 1, 100_000_000, None).unwrap();
    let text = b"a b c a b c a b c a b c a a a a b b b b";
    let mut first = Vec::new();
    let mut second = Vec::new();
    let mut rng = worker_rng(11, 0);
    dict.read_line(text, &mut rng, &mut first);
    let mut rng = worker_rng(11, 0);
    dict.read_line(text, &mut rng, &mut second);
    assert_eq!(first, second);
}

#[test]
fn the_negative_table_of_a_dictionary() {
    // counts 16, 1, 1: weights 2048, 256, 256
    let dict =
        Dict::build(&records(&["a a a a a a a a a a a a a a a a b c"]), 1, 0, None).unwrap();
    let mut rng = worker_rng(5, 0);
    let table = dict.init_negative_table(10, &mut rng).unwrap();
    assert_eq!(table.len(), 10);
    assert_eq!(table.iter().filter(|i| **i == 0).count(), 8);
    assert_eq!(table.iter().filter(|i| **i == 1).count(), 1);
    assert_eq!(table.iter().filter(|i| **i == 2).count(), 1);
    assert_eq!(dict.counts_ref(), &vec![16, 1, 1]);
}

#[test]
fn a_number_is_drawn_for_each_word_of_a_line() {
    let dict = Dict::build(&records(&["a b a c a b"]), 1, 100_000_000, None).unwrap();
    let line: Vec<usize> = (0..40).collect();
    let mut out = Vec::new();
    // three words each, in and out of the vocabulary: the generators end in one state
    let mut one = worker_rng(3, 0);
    let mut other = worker_rng(3, 0);
    assert_eq!(dict.read_line(b"x y z", &mut one, &mut out), 3);
    assert_eq!(dict.read_line(b"a b c", &mut other, &mut out), 3);
    assert_eq!(
        word2vec::window::skipgram(&line, &mut one, 5),
        word2vec::window::skipgram(&line, &mut other, 5)
    );
    // a line of another length leaves another state
    let mut one = worker_rng(3, 0);
    let mut other = worker_rng(3, 0);
    dict.read_line(b"x y z", &mut one, &mut out);
    dict.read_line(b"a b c d", &mut other, &mut out);
    assert_ne!(
        word2vec::window::skipgram(&line, &mut one, 5),
        word2vec::window::skipgram(&line, &mut other, 5)
    );
}
