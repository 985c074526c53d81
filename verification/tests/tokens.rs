use word2vec::tokens::{byte_is_space, count_tokens, next_token, tokenize};

fn words(text: &str) -> Vec<String> {
    tokenize(text.as_bytes()).into_iter().map(|w| String::from_utf8(w).unwrap()).collect()
}

#[test]
fn words_are_runs_without_white_space() {
    assert_eq!(words("the quick  brown\tfox\n"), vec!["the", "quick", "brown", "fox"]);
    assert_eq!(words("  lead and trail  "), vec!["lead", "and", "trail"]);
    assert_eq!(words("one"), vec!["one"]);
}

#[test]
fn a_line_of_white_space_has_no_words() {
    assert_eq!(words(""), Vec::<String>::new());
    assert_eq!(words(" \t\r\n\x0b\x0c"), Vec::<String>::new());
    assert_eq!(count_tokens(b" \t\r\n"), 0);
}

#[test]
fn white_space_bytes() {
    for byte in 0..=255u8 {
        let space = matches!(byte, b' ' | b'\t' | b'\n' | 0x0b | 0x0c | b'\r');
        assert_eq!(byte_is_space(byte), space);
    }
}

#[test]
fn other_bytes_belong_to_words() {
    assert_eq!(words("a,b c.d"), vec!["a,b", "c.d"]);
    assert_eq!(tokenize(&[0, 32, 255, 200]), vec![vec![0], vec![255, 200]]);
    assert_eq!(words("zäh öl"), vec!["zäh", "öl"]);
}

#[test]
fn counting_agrees_with_listing() {
    for text in ["", "a", " a ", "a b", "a  b\tc\nd e", "   ", "ab cd\n"] {
        assert_eq!(count_tokens(text.as_bytes()), tokenize(text.as_bytes()).len());
    }
    assert_eq!(count_tokens(b"a  b\tc\nd e"), 5);
}

#[test]
fn words_are_found_one_after_the_other() {
    let text = b"  ab c  ";
    assert_eq!(next_token(text, 0), Some((2, 4)));
    assert_eq!(next_token(text, 2), Some((2, 4)));
    assert_eq!(next_token(text, 3), Some((3, 4)));
    assert_eq!(next_token(text, 4), Some((5, 6)));
    assert_eq!(next_token(text, 6), None);
    assert_eq!(next_token(text, 8), None);
}
