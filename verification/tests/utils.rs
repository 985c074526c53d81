use std::io;
use word2vec::train::first_failure;
use word2vec::word_table::{hash_word, same_bytes, WordTable};
use word2vec::{Command, W2vError};

#[test]
fn messages() {
    assert_eq!(W2vError::RuntimeError.message(), "word2vec runtime error");
    assert_eq!(W2vError::Vocabulary.message(), "word2vec vocabulary error");
    let err = W2vError::File(io::Error::new(io::ErrorKind::NotFound, "gone"));
    assert_eq!(err.message(), "open file error:gone");
}

#[test]
fn an_io_error_becomes_a_file_error() {
    let err: W2vError = io::Error::new(io::ErrorKind::Other, "x").into();
    assert!(matches!(err, W2vError::File(_)));
    fn fails() -> Result<(), W2vError> {
        Err(io::Error::new(io::ErrorKind::Other, "x"))?;
        Ok(())
    }
    assert!(matches!(fails(), Err(W2vError::File(_))));
}

#[test]
fn commands_compare() {
    assert_eq!(Command::Train, Command::Train);
    assert_ne!(Command::Train, Command::Test);
    let copy = Command::Test;
    assert_eq!(format!("{:?}", copy), "Test");
}

#[test]
fn hashes() {
    assert_eq!(hash_word(b""), 14695981039346656037);
    assert_eq!(hash_word(b"a"), 12638187200555641996);
    assert_eq!(hash_word(b"foobar"), 9625390261332436968);
}

#[test]
fn bytes_compare() {
    assert!(same_bytes(b"", b""));
    assert!(same_bytes(b"abc", b"abc"));
    assert!(!same_bytes(b"abc", b"abd"));
    assert!(!same_bytes(b"abc", b"ab"));
    assert!(!same_bytes(b"", b"a"));
}

#[test]
fn a_word_table_gives_each_word_its_place() {
    let mut table = WordTable::new();
    assert_eq!(table.len(), 0);
    assert_eq!(table.find(b"a"), None);
    assert_eq!(table.push(b"a".to_vec()), 0);
    assert_eq!(table.push(b"b".to_vec()), 1);
    assert_eq!(table.push(b"".to_vec()), 2);
    assert_eq!(table.len(), 3);
    assert_eq!(table.find(b"a"), Some(0));
    assert_eq!(table.find(b"b"), Some(1));
    assert_eq!(table.find(b""), Some(2));
    assert_eq!(table.find(b"c"), None);
    assert_eq!(table.word(1), &b"b".to_vec());
}

#[test]
fn a_word_table_grows() {
    let mut table = WordTable::new();
    for i in 0..10000u32 {
        let word = format!("word{}", i).into_bytes();
        assert_eq!(table.find(&word), None);
        assert_eq!(table.push(word), i as usize);
    }
    for i in 0..10000u32 {
        let word = format!("word{}", i).into_bytes();
        assert_eq!(table.find(&word), Some(i as usize));
    }
    assert_eq!(table.find(b"word10000"), None);
}

#[test]
fn a_run_without_failure_succeeds() {
    assert!(matches!(first_failure(vec![]), Ok(())));
    assert!(matches!(first_failure(vec![Ok(true), Ok(false), Ok(true)]), Ok(())));
}

#[test]
fn the_first_failure_is_the_outcome_of_the_run() {
    let outcomes = vec![
        Ok(true),
        Err(W2vError::Vocabulary),
        Ok(true),
        Err(W2vError::RuntimeError),
        Err(W2vError::File(io::Error::new(io::ErrorKind::Other, "late"))),
    ];
    assert!(matches!(first_failure(outcomes), Err(W2vError::Vocabulary)));
    let outcomes = vec![
        Err(W2vError::File(io::Error::new(io::ErrorKind::Other, "early"))),
        Err(W2vError::RuntimeError),
    ];
    match first_failure(outcomes) {
        Err(W2vError::File(e)) => assert_eq!(e.to_string(), "early"),
        _ => panic!("the first failure was passed over"),
    }
    assert!(matches!(
        first_failure(vec![Ok(true), Ok(true), Err(W2vError::RuntimeError)]),
        Err(W2vError::RuntimeError)
    ));
}
