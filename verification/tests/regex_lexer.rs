use kernelkit::regex::lexer::{Lexer2, PatternLexer, Token};

#[test]
fn handles_regex_tokenization_accepting_byte2() {
    let input = b"ab#\x65\0".to_vec();
    let mut lexer = match Lexer2::new(input) {
        None => return assert!(false),
        Some(lexer) => lexer,
    };

    assert_eq!(lexer.next_in_group(), Some(Token::Literal { start: 0, length: 2 }));
    assert_eq!(lexer.next_in_group(), Some(Token::Marker { value: 0x65 }));
    assert_eq!(lexer.next_in_group(), None);
}

#[test]
fn handles_regex_tokenization_accepting_positive_class() {
    let input = b"[a-m0123n-z]\0".to_vec();
    let mut lexer = match Lexer2::new(input) {
        None => return assert!(false),
        Some(lexer) => lexer,
    };

    assert_eq!(lexer.next_in_group(), Some(Token::OpenClass {}));
    assert_eq!(lexer.next_in_class(), Some(Token::RangeClass { min: b'a', max: b'm' }));
    assert_eq!(lexer.next_in_class(), Some(Token::RangeClass { min: b'0', max: b'0' }));
    assert_eq!(lexer.next_in_class(), Some(Token::RangeClass { min: b'1', max: b'1' }));
    assert_eq!(lexer.next_in_class(), Some(Token::RangeClass { min: b'2', max: b'2' }));
    assert_eq!(lexer.next_in_class(), Some(Token::RangeClass { min: b'3', max: b'3' }));
    assert_eq!(lexer.next_in_class(), Some(Token::RangeClass { min: b'n', max: b'z' }));
    assert_eq!(lexer.next_in_class(), Some(Token::CloseClass {}));
    assert_eq!(lexer.next_in_group(), None);
}

#[test]
fn handles_regex_tokenization_accepting_negative_class() {
    let input = b"[^a-m0123n-z]\0".to_vec();
    let mut lexer = match Lexer2::new(input) {
        None => return assert!(false),
        Some(lexer) => lexer,
    };

    assert_eq!(lexer.next_in_group(), Some(Token::OpenClass {}));
    assert_eq!(lexer.next_in_class(), Some(Token::NegateClass {}));
    assert_eq!(lexer.next_in_class(), Some(Token::RangeClass { min: b'a', max: b'm' }));
    assert_eq!(lexer.next_in_class(), Some(Token::RangeClass { min: b'0', max: b'0' }));
    assert_eq!(lexer.next_in_class(), Some(Token::RangeClass { min: b'1', max: b'1' }));
    assert_eq!(lexer.next_in_class(), Some(Token::RangeClass { min: b'2', max: b'2' }));
    assert_eq!(lexer.next_in_class(), Some(Token::RangeClass { min: b'3', max: b'3' }));
    assert_eq!(lexer.next_in_class(), Some(Token::RangeClass { min: b'n', max: b'z' }));
    assert_eq!(lexer.next_in_class(), Some(Token::CloseClass {}));
    assert_eq!(lexer.next_in_group(), None);
}

#[test]
fn handles_regex_tokenization_accepting_positive_class_escaped() {
    let input = b"[\\a-m0\\12\\3n-\\z\\4-\\5\\^]\0".to_vec();
    let mut lexer = match Lexer2::new(input) {
        None => return assert!(false),
        Some(lexer) => lexer,
    };

    assert_eq!(lexer.next_in_group(), Some(Token::OpenClass {}));
    assert_eq!(lexer.next_in_class(), Some(Token::RangeClass { min: b'a', max: b'm' }));
    assert_eq!(lexer.next_in_class(), Some(Token::RangeClass { min: b'0', max: b'0' }));
    assert_eq!(lexer.next_in_class(), Some(Token::RangeClass { min: b'1', max: b'1' }));
    assert_eq!(lexer.next_in_class(), Some(Token::RangeClass { min: b'2', max: b'2' }));
    assert_eq!(lexer.next_in_class(), Some(Token::RangeClass { min: b'3', max: b'3' }));
    assert_eq!(lexer.next_in_class(), Some(Token::RangeClass { min: b'n', max: b'z' }));
    assert_eq!(lexer.next_in_class(), Some(Token::RangeClass { min: b'4', max: b'5' }));
    assert_eq!(lexer.next_in_class(), Some(Token::RangeClass { min: b'^', max: b'^' }));
    assert_eq!(lexer.next_in_class(), Some(Token::CloseClass {}));
    assert_eq!(lexer.next_in_group(), None);
}

#[test]
fn handles_regex_tokenization_accepting_negative_class_escaped() {
    let input = b"[^\\a-m\\012\\3n-\\z\\4-\\5\\^]\0".to_vec();
    let mut lexer = match Lexer2::new(input) {
        None => return assert!(false),
        Some(lexer) => lexer,
    };

    assert_eq!(lexer.next_in_group(), Some(Token::OpenClass {}));
    assert_eq!(lexer.next_in_class(), Some(Token::NegateClass {}));
    assert_eq!(lexer.next_in_class(), Some(Token::RangeClass { min: b'a', max: b'm' }));
    assert_eq!(lexer.next_in_class(), Some(Token::RangeClass { min: b'0', max: b'0' }));
    assert_eq!(lexer.next_in_class(), Some(Token::RangeClass { min: b'1', max: b'1' }));
    assert_eq!(lexer.next_in_class(), Some(Token::RangeClass { min: b'2', max: b'2' }));
    assert_eq!(lexer.next_in_class(), Some(Token::RangeClass { min: b'3', max: b'3' }));
    assert_eq!(lexer.next_in_class(), Some(Token::RangeClass { min: b'n', max: b'z' }));
    assert_eq!(lexer.next_in_class(), Some(Token::RangeClass { min: b'4', max: b'5' }));
    assert_eq!(lexer.next_in_class(), Some(Token::RangeClass { min: b'^', max: b'^' }));
    assert_eq!(lexer.next_in_class(), Some(Token::CloseClass {}));
    assert_eq!(lexer.next_in_group(), None);
}

#[test]
fn regex_lexer_handles_regex_tokenization() {
    let input = b"(ab)*|[a-z_]+|[^abc0-9]+|ab+\0".to_vec();
    let mut lexer = match kernelkit::regex::lexer::Lexer::new(input.clone()) {
        None => return assert!(false),
        Some(lexer) => lexer,
    };

    {
        assert_eq!(lexer.next_in_group(), Some((0, 1)));
        assert_eq!(lexer.next_in_group(), Some((1, 2)));
        assert_eq!(lexer.next_in_group(), Some((3, 1)));
        assert_eq!(lexer.next_in_group(), Some((4, 1)));
        assert_eq!(lexer.next_in_group(), Some((5, 1)));
        assert_eq!(lexer.next_in_group(), Some((6, 1)));
        assert_eq!(lexer.next_in_class(), (b'a', b'z'));
        assert_eq!(lexer.next_in_class(), (b'_', b'_'));
        assert_eq!(lexer.next_in_class(), (b']', 0));
        assert_eq!(lexer.next_in_group(), Some((12, 1)));
        assert_eq!(lexer.next_in_group(), Some((13, 1)));
        assert_eq!(lexer.next_in_group(), Some((14, 1)));
        assert_eq!(lexer.next_in_class(), (b'^', 0));
        assert_eq!(lexer.next_in_class(), (b'a', b'a'));
        assert_eq!(lexer.next_in_class(), (b'b', b'b'));
        assert_eq!(lexer.next_in_class(), (b'c', b'c'));
        assert_eq!(lexer.next_in_class(), (b'0', b'9'));
        assert_eq!(lexer.next_in_class(), (b']', 0));
        assert_eq!(lexer.next_in_group(), Some((23, 1)));
        assert_eq!(lexer.next_in_group(), Some((24, 1)));
        assert_eq!(lexer.next_in_group(), Some((25, 1)));
        assert_eq!(lexer.next_in_group(), Some((26, 1)));
        assert_eq!(lexer.next_in_group(), Some((27, 1)));

        assert_eq!(lexer.next_in_group(), None);
        assert_eq!(lexer.next_in_group(), None);
        assert_eq!(lexer.next_in_group(), None);
    }
}

#[test]
fn regex_lexer_handles_regex_tokenization_long() {
    let input = b"abcdefghijklmnopqrstuvwxyz\0".to_vec();
    let mut lexer = match kernelkit::regex::lexer::Lexer::new(input.clone()) {
        None => return assert!(false),
        Some(lexer) => lexer,
    };

    {
        assert_eq!(lexer.next_in_group(), Some((0, 9)));
        assert_eq!(lexer.next_in_group(), Some((9, 9)));
        assert_eq!(lexer.next_in_group(), Some((18, 8)));
    }
}

#[test]
fn regex_lexer_reads_both_group_brackets_as_opening() {
    let input = b"(ab)|x\0".to_vec();
    let mut lexer = match Lexer2::new(input) {
        None => return assert!(false),
        Some(lexer) => lexer,
    };

    assert_eq!(lexer.next_in_group(), Some(Token::OpenGroup {}));
    assert_eq!(lexer.next_in_group(), Some(Token::Literal { start: 1, length: 2 }));
    assert_eq!(lexer.next_in_group(), Some(Token::OpenGroup {}));
    assert_eq!(lexer.next_in_group(), None);
    assert_eq!(lexer.position(), 4);
}

#[test]
fn regex_lexer_takes_only_lowercase_letters_as_literal() {
    let input = b"abcXY\0".to_vec();
    let mut lexer = match Lexer2::new(input) {
        None => return assert!(false),
        Some(lexer) => lexer,
    };

    assert_eq!(lexer.next_in_group(), Some(Token::Literal { start: 0, length: 3 }));
    assert_eq!(lexer.next_in_group(), None);
}

#[test]
fn regex_pattern_lexer_reads_operators_and_closing_groups() {
    let input = b"(ab)|x+\0".to_vec();
    let mut lexer = match PatternLexer::new(input) {
        None => return assert!(false),
        Some(lexer) => lexer,
    };

    assert_eq!(lexer.next_in_group(), Some(Token::OpenGroup {}));
    assert_eq!(lexer.next_in_group(), Some(Token::Literal { start: 1, length: 2 }));
    assert_eq!(lexer.next_in_group(), Some(Token::CloseGroup {}));
    assert_eq!(lexer.next_in_group(), Some(Token::Either {}));
    assert_eq!(lexer.next_in_group(), Some(Token::Literal { start: 5, length: 1 }));
    assert_eq!(lexer.next_in_group(), Some(Token::Plus {}));
    assert_eq!(lexer.next_in_group(), None);
}
