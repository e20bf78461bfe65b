use graphstats::text::{is_separator, next_word, skip_separators, skip_word};

#[test]
fn text_separators() {
    for c in [' ', '\t', '\n', '\x0C', '\r'] {
        assert!(is_separator(c));
    }
    for c in ['a', '0', '+', '\x0B', '\u{00a0}', '\u{2003}'] {
        assert!(!is_separator(c));
    }
}

#[test]
fn text_skips() {
    assert_eq!(skip_separators("  ab c", 0), 2);
    assert_eq!(skip_separators("  ab c", 2), 2);
    assert_eq!(skip_separators("   ", 1), 3);
    assert_eq!(skip_word("  ab c", 2), 4);
    assert_eq!(skip_word("  ab c", 0), 0);
    assert_eq!(skip_word("abc", 1), 3);
    assert_eq!(skip_word("", 0), 0);
}

#[test]
fn text_words_in_turn() {
    let line = " 12\t é34  5 ";
    let first = next_word(line, 0).unwrap();
    assert_eq!((first.start, first.end), (1, 3));
    let second = next_word(line, first.end).unwrap();
    assert_eq!((second.start, second.end), (5, 8));
    let third = next_word(line, second.end).unwrap();
    assert_eq!((third.start, third.end), (10, 11));
    assert!(next_word(line, third.end).is_none());
    assert!(next_word("", 0).is_none());
    assert!(next_word(" \n ", 0).is_none());
}
