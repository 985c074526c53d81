use word2vec::file_utils::{has_bytes, is_parquet_name, shard_load_options};
use word2vec::shards::{
    bytes_to_record_edge, file_split_indices, parquet_file_split_indices, probe_offset,
    record_edges, text_file_split_indices, ShardPlanner,
};
use word2vec::{LoadOptions, W2vError};

fn lines(n: usize, width: usize) -> Vec<u8> {
    let mut corpus = Vec::new();
    for i in 0..n {
        for _ in 0..width {
            corpus.push(b'a' + (i % 26) as u8);
        }
        corpus.push(b'\n');
    }
    corpus
}

fn on_record_edge(corpus: &[u8], pos: u64) -> bool {
    let pos = pos as usize;
    pos == 0 || pos == corpus.len() || corpus[pos - 1] == b'\n'
}

#[test]
fn hundred_records_in_four_shards() {
    let plan = parquet_file_split_indices(100, 4).unwrap();
    assert_eq!(plan, vec![0, 25, 50, 75, 100]);
}

#[test]
fn uneven_records_leave_the_rest_to_the_last_shard() {
    let plan = parquet_file_split_indices(10, 4).unwrap();
    assert_eq!(plan, vec![0, 2, 4, 6, 10]);
}

#[test]
fn one_shard_spans_the_corpus() {
    assert_eq!(parquet_file_split_indices(7, 1).unwrap(), vec![0, 7]);
    assert_eq!(text_file_split_indices(b"a b\nc\n", 1).unwrap(), vec![0, 6]);
}

#[test]
fn as_many_shards_as_records() {
    assert_eq!(parquet_file_split_indices(3, 3).unwrap(), vec![0, 1, 2, 3]);
}

#[test]
fn more_shards_than_records_is_refused() {
    assert!(matches!(parquet_file_split_indices(3, 4), Err(W2vError::RuntimeError)));
    assert!(matches!(parquet_file_split_indices(0, 1), Err(W2vError::RuntimeError)));
}

#[test]
fn no_shard_is_refused() {
    assert!(matches!(parquet_file_split_indices(3, 0), Err(W2vError::RuntimeError)));
    assert!(matches!(text_file_split_indices(b"a\nb\n", 0), Err(W2vError::RuntimeError)));
    assert!(matches!(ShardPlanner::new(4, 0, vec![]), Err(W2vError::RuntimeError)));
}

#[test]
fn hundred_lines_in_four_shards() {
    let corpus = lines(100, 3);
    let plan = text_file_split_indices(&corpus, 4).unwrap();
    assert_eq!(plan, vec![0, 104, 204, 304, 400]);
    for w in plan.windows(2) {
        assert!(w[0] < w[1]);
    }
    for b in &plan {
        assert!(on_record_edge(&corpus, *b));
    }
}

#[test]
fn text_boundaries_move_to_the_end_of_the_line() {
    let corpus = b"aa\nbbbb\ncc\ndddddd\n";
    assert_eq!(corpus.len(), 18);
    // the probe starts at 9, inside the third line
    assert_eq!(text_file_split_indices(corpus, 2).unwrap(), vec![0, 11, 18]);
    // a probe that starts on a record edge still moves on by one line
    assert_eq!(
        text_file_split_indices(b"ab\ncd\nef\ngh\nij\nkl\n", 3).unwrap(),
        vec![0, 9, 15, 18]
    );
}

#[test]
fn a_last_line_that_swallows_the_last_probe_leaves_a_record_to_the_last_shard() {
    let corpus = b"aa\nbbbb\ncc\ndddddd\n";
    // the probes start at 6 and 12; the second runs to the end of the corpus
    // and is held back to the start of the last record
    assert_eq!(text_file_split_indices(corpus, 3).unwrap(), vec![0, 8, 11, 18]);
    assert_eq!(text_file_split_indices(corpus, 4).unwrap(), vec![0, 3, 8, 11, 18]);
}

#[test]
fn probes_that_fall_into_one_long_line_move_on_record_by_record() {
    let corpus = b"aaaaaaaaaaaaaaaaaaaa\nb\nc\n";
    assert_eq!(corpus.len(), 25);
    // both probes, at 8 and 16, end at byte 21
    assert_eq!(text_file_split_indices(corpus, 3).unwrap(), vec![0, 21, 23, 25]);
    assert_eq!(text_file_split_indices(corpus, 2).unwrap(), vec![0, 21, 25]);
}

#[test]
fn a_long_last_line_leaves_the_short_lines_to_the_first_shards() {
    let corpus = b"b\nc\naaaaaaaaaaaaaaaaaaaa\n";
    assert_eq!(text_file_split_indices(corpus, 3).unwrap(), vec![0, 2, 4, 25]);
    assert_eq!(text_file_split_indices(corpus, 2).unwrap(), vec![0, 4, 25]);
}

#[test]
fn as_many_shards_as_lines() {
    for n in 1..=20usize {
        let corpus = lines(n, 1 + n % 3);
        let plan = text_file_split_indices(&corpus, n as u64).unwrap();
        let edges = record_edges(&corpus);
        assert_eq!(plan, edges);
        assert!(matches!(
            text_file_split_indices(&corpus, n as u64 + 1),
            Err(W2vError::RuntimeError)
        ));
    }
}

#[test]
fn fewer_lines_than_shards_are_refused() {
    let corpus = b"abcdefghij\n";
    assert_eq!(text_file_split_indices(corpus, 1).unwrap(), vec![0, 11]);
    assert!(matches!(text_file_split_indices(corpus, 2), Err(W2vError::RuntimeError)));
    assert!(matches!(text_file_split_indices(b"", 1), Err(W2vError::RuntimeError)));
    assert!(matches!(text_file_split_indices(b"a\n", 3), Err(W2vError::RuntimeError)));
    assert!(matches!(text_file_split_indices(b"a\nb", 3), Err(W2vError::RuntimeError)));
    assert_eq!(text_file_split_indices(b"a\nb", 2).unwrap(), vec![0, 2, 3]);
}

#[test]
fn the_record_edges_of_a_corpus() {
    assert_eq!(record_edges(b""), vec![0]);
    assert_eq!(record_edges(b"a"), vec![0, 1]);
    assert_eq!(record_edges(b"\n"), vec![0, 1]);
    assert_eq!(record_edges(b"ab\ncd\nef"), vec![0, 3, 6, 8]);
    assert_eq!(record_edges(b"ab\n\ncd\n"), vec![0, 3, 4, 7]);
}

#[test]
fn text_without_final_line_feed() {
    let corpus = b"ab\ncd\nef";
    let plan = text_file_split_indices(corpus, 2).unwrap();
    assert_eq!(plan, vec![0, 6, 8]);
}

#[test]
fn bytes_to_the_edge() {
    let corpus = b"ab\ncd\nef";
    assert_eq!(bytes_to_record_edge(corpus, 0), 3);
    assert_eq!(bytes_to_record_edge(corpus, 2), 1);
    assert_eq!(bytes_to_record_edge(corpus, 3), 3);
    assert_eq!(bytes_to_record_edge(corpus, 6), 2);
    assert_eq!(bytes_to_record_edge(corpus, 8), 0);
}

#[test]
fn probes_are_multiples_of_the_stride() {
    assert_eq!(probe_offset(400, 4, 0), 0);
    assert_eq!(probe_offset(400, 4, 1), 100);
    assert_eq!(probe_offset(400, 4, 3), 300);
    assert_eq!(probe_offset(10, 4, 4), 8);
}

fn drive(mut planner: ShardPlanner, answers: &[u64]) -> (Vec<u64>, Vec<u64>) {
    let mut asked = Vec::new();
    let mut at = 0;
    while planner.is_pending() {
        asked.push(planner.next_offset());
        planner.answer(answers[at]);
        at += 1;
    }
    assert_eq!(at, answers.len());
    (asked, planner.finish())
}

#[test]
fn a_plan_from_probe_answers() {
    let planner = ShardPlanner::new(400, 4, vec![388, 392, 396]).unwrap();
    let (asked, plan) = drive(planner, &[4, 4, 4]);
    assert_eq!(asked, vec![100, 200, 300]);
    assert_eq!(plan, vec![0, 104, 204, 304, 400]);
    let planner = ShardPlanner::new(9, 1, vec![]).unwrap();
    assert!(!planner.is_pending());
    assert_eq!(planner.finish(), vec![0, 9]);
}

#[test]
fn a_probe_inside_the_boundary_before_starts_at_that_boundary() {
    // a first line of 21 bytes, then two lines of 2 bytes
    let planner = ShardPlanner::new(25, 3, vec![21, 23]).unwrap();
    let (asked, plan) = drive(planner, &[13, 2]);
    assert_eq!(asked, vec![8, 21]);
    assert_eq!(plan, vec![0, 21, 23, 25]);
}

#[test]
fn a_boundary_is_held_back_to_leave_a_record_for_each_later_shard() {
    // two lines of 2 bytes, then a last line of 21 bytes
    let planner = ShardPlanner::new(25, 3, vec![2, 4]).unwrap();
    let (asked, plan) = drive(planner, &[17, 9]);
    assert_eq!(asked, vec![8, 16]);
    assert_eq!(plan, vec![0, 2, 4, 25]);
    let planner = ShardPlanner::new(400, 2, vec![396]).unwrap();
    let (asked, plan) = drive(planner, &[u64::MAX]);
    assert_eq!(asked, vec![200]);
    assert_eq!(plan, vec![0, 396, 400]);
}

#[test]
fn a_report_that_shows_too_few_records_gives_no_plan() {
    // of the end of a corpus of 3 records two record starts are reported
    assert!(matches!(ShardPlanner::new(400, 4, vec![100, 300]), Err(W2vError::RuntimeError)));
    assert!(matches!(ShardPlanner::new(400, 2, vec![]), Err(W2vError::RuntimeError)));
    assert!(matches!(ShardPlanner::new(0, 1, vec![]), Err(W2vError::RuntimeError)));
    assert!(matches!(ShardPlanner::new(400, 1, vec![7]), Err(W2vError::RuntimeError)));
}

#[test]
fn the_planner_agrees_with_the_plan_of_the_corpus() {
    for (n_lines, width, n_split) in [(100, 3, 4), (37, 5, 5), (9, 40, 7), (12, 1, 12)] {
        let corpus = lines(n_lines, width);
        let edges = record_edges(&corpus);
        let tail = edges[edges.len() - n_split..edges.len() - 1].to_vec();
        let mut planner = ShardPlanner::new(corpus.len() as u64, n_split as u64, tail).unwrap();
        while planner.is_pending() {
            let offset = planner.next_offset() as usize;
            planner.answer(bytes_to_record_edge(&corpus, offset) as u64);
        }
        assert_eq!(planner.finish(), text_file_split_indices(&corpus, n_split as u64).unwrap());
    }
}

#[test]
fn the_name_picks_the_plan() {
    let corpus = lines(100, 3);
    assert_eq!(
        file_split_indices("corpus.txt", &corpus, 100, 4).unwrap(),
        vec![0, 104, 204, 304, 400]
    );
    assert_eq!(
        file_split_indices("corpus.parquet", &corpus, 100, 4).unwrap(),
        vec![0, 25, 50, 75, 100]
    );
}

#[test]
fn names_of_columnar_corpora() {
    assert!(is_parquet_name("corpus.parquet"));
    assert!(is_parquet_name("parquet"));
    assert!(is_parquet_name("data/parquet_dir/part-0"));
    assert!(!is_parquet_name("corpus.txt"));
    assert!(!is_parquet_name("parque"));
    assert!(!is_parquet_name("PARQUET"));
    assert!(!is_parquet_name(""));
}

#[test]
fn byte_search() {
    assert!(has_bytes(b"abcabd", b"abd"));
    assert!(has_bytes(b"abc", b""));
    assert!(has_bytes(b"", b""));
    assert!(!has_bytes(b"ab", b"abc"));
    assert!(!has_bytes(b"abcabc", b"abd"));
}

#[test]
fn what_a_worker_opens() {
    assert_eq!(shard_load_options(false, 104, 204).unwrap(), vec![LoadOptions::TextFile(104, 204)]);
    assert_eq!(
        shard_load_options(true, 2, 5).unwrap(),
        vec![LoadOptions::Parquet(2), LoadOptions::Parquet(3), LoadOptions::Parquet(4)]
    );
    assert_eq!(shard_load_options(true, 5, 5).unwrap(), vec![]);
}

#[test]
fn every_row_group_belongs_to_one_shard() {
    let plan = parquet_file_split_indices(11, 3).unwrap();
    assert_eq!(plan, vec![0, 3, 6, 11]);
    let mut opened = Vec::new();
    for shard in plan.windows(2) {
        for option in shard_load_options(true, shard[0], shard[1]).unwrap() {
            match option {
                LoadOptions::Parquet(group) => opened.push(group),
                LoadOptions::TextFile(_, _) => panic!("a range of bytes for a columnar corpus"),
            }
        }
    }
    assert_eq!(opened, (0..11).collect::<Vec<usize>>());
}

#[test]
fn every_line_belongs_to_one_shard() {
    let corpus = lines(37, 5);
    let plan = text_file_split_indices(&corpus, 5).unwrap();
    let mut read = Vec::new();
    for shard in plan.windows(2) {
        let part = &corpus[shard[0] as usize..shard[1] as usize];
        assert_eq!(*part.last().unwrap(), b'\n');
        read.extend_from_slice(part);
        assert!(part.iter().filter(|b| **b == b'\n').count() >= 1);
    }
    assert_eq!(read, corpus);
}
