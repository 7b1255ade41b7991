use kernelkit::lexer::Tokenizer;
use kernelkit::regex::lexer::Lexer;

#[test]
fn lexer_handles_regex_tokenization() {
    let input = b"(ab)*|[a-z_]+|[^abc0-9]+|ab+\0".to_vec();
    let mut tokenizer = Tokenizer::new(input.clone());

    {
        assert_eq!(tokenizer.next_in_group(), Some((0, 1)));
        assert_eq!(tokenizer.next_in_group(), Some((1, 2)));
        assert_eq!(tokenizer.next_in_group(), Some((3, 1)));
        assert_eq!(tokenizer.next_in_group(), Some((4, 1)));
        assert_eq!(tokenizer.next_in_group(), Some((5, 1)));
        assert_eq!(tokenizer.next_in_group(), Some((6, 1)));
        assert_eq!(tokenizer.next_in_class(), (b'a', b'z'));
        assert_eq!(tokenizer.next_in_class(), (b'_', b'_'));
        assert_eq!(tokenizer.next_in_class(), (b']', 0));
        assert_eq!(tokenizer.next_in_group(), Some((12, 1)));
        assert_eq!(tokenizer.next_in_group(), Some((13, 1)));
        assert_eq!(tokenizer.next_in_group(), Some((14, 1)));
        assert_eq!(tokenizer.next_in_class(), (b'^', 0));
        assert_eq!(tokenizer.next_in_class(), (b'a', b'a'));
        assert_eq!(tokenizer.next_in_class(), (b'b', b'b'));
        assert_eq!(tokenizer.next_in_class(), (b'c', b'c'));
        assert_eq!(tokenizer.next_in_class(), (b'0', b'9'));
        assert_eq!(tokenizer.next_in_class(), (b']', 0));
        assert_eq!(tokenizer.next_in_group(), Some((23, 1)));
        assert_eq!(tokenizer.next_in_group(), Some((24, 1)));
        assert_eq!(tokenizer.next_in_group(), Some((25, 1)));
        assert_eq!(tokenizer.next_in_group(), Some((26, 1)));
        assert_eq!(tokenizer.next_in_group(), Some((27, 1)));

        assert_eq!(tokenizer.next_in_group(), None);
        assert_eq!(tokenizer.next_in_group(), None);
        assert_eq!(tokenizer.next_in_group(), None);
    }
}

#[test]
fn lexer_handles_regex_tokenization_long() {
    let input = b"abcdefghijklmnopqrstuvwxyz\0".to_vec();
    let mut tokenizer = Tokenizer::new(input.clone());

    {
        assert_eq!(tokenizer.next_in_group(), Some((0, 9)));
        assert_eq!(tokenizer.next_in_group(), Some((9, 9)));
        assert_eq!(tokenizer.next_in_group(), Some((18, 8)));
    }
}

#[test]
fn handles_regex_tokenization_accepting_byte() {
    let input = b"ab#x\0".to_vec();
    let mut lexer = match Lexer::new(input.clone()) {
        None => return assert!(false),
        Some(lexer) => lexer,
    };

    {
        assert_eq!(lexer.next_in_group(), Some((0, 2)));
        assert_eq!(lexer.next_in_group(), Some((2, 2)));
    }
}
