use kernelkit::regex::error::RegexError;
use kernelkit::regex::heap::B4096;
use kernelkit::regex::pages::Naive64Pages;
use kernelkit::regex::rpn::RPN;

#[test]
fn handles_rpn_from_zero_followed_by_two_optional_numbers() {
    let mut allocator = Naive64Pages::new();
    let pattern = b"01?2?\0".to_vec();

    let regex = match RPN::<B4096>::build(&mut allocator, pattern) {
        Ok(regex) => regex,
        _ => return assert!(false),
    };

    assert_eq!(regex.as_bytes(), b"l10l11?&l12?&".to_vec());
}

#[test]
fn handles_rpn_from_number_regex() {
    let mut allocator = Naive64Pages::new();
    let pattern = b"\\-?(0|[1-9][0-9]*)(\\.[0-9]+)?([eE](\\+|\\-)?[0-9]+)?\0".to_vec();

    let regex = match RPN::<B4096>::build(&mut allocator, pattern) {
        Ok(regex) => regex,
        _ => return assert!(false),
    };

    assert_eq!(regex.as_bytes(), b"l1-?l10-19-09+?&|&l1.-09+&?&-EE-ee|l1+l1-|?&-09+&?&".to_vec());
}

#[test]
fn handles_rpn_from_accepting_byte() {
    let mut allocator = Naive64Pages::new();
    let pattern = b"ab#x\0".to_vec();

    let regex = match RPN::<B4096>::build(&mut allocator, pattern) {
        Ok(regex) => regex,
        _ => return assert!(false),
    };

    assert_eq!(regex.as_bytes(), b"l2ab#x".to_vec());
}

#[test]
fn handles_rpn_from_accepting_byte_multiple_group() {
    let mut allocator = Naive64Pages::new();
    let pattern = b"(ab#x)|(cd#y)\0".to_vec();

    let regex = match RPN::<B4096>::build(&mut allocator, pattern) {
        Ok(regex) => regex,
        _ => return assert!(false),
    };

    assert_eq!(regex.as_bytes(), b"l2ab#xl2cd#y|".to_vec());
}

#[test]
fn handles_rpn_from_accepting_byte_multiple_either() {
    let mut allocator = Naive64Pages::new();
    let pattern = b"ab#x|cd#y\0".to_vec();

    let regex = match RPN::<B4096>::build(&mut allocator, pattern) {
        Ok(regex) => regex,
        _ => return assert!(false),
    };

    assert_eq!(regex.as_bytes(), b"l2ab#xl2cd#y|".to_vec());
}

#[test]
fn regex_rpn_handles_seq_of_one_character() {
    let mut allocator = Naive64Pages::new();
    let pattern = b"a\0".to_vec();

    let regex = match RPN::<B4096>::build(&mut allocator, pattern) {
        Ok(regex) => regex,
        _ => return assert!(false),
    };

    assert_eq!(regex.as_bytes(), b"l1a".to_vec());
}

#[test]
fn regex_rpn_handles_seq_of_two_characters() {
    let mut allocator = Naive64Pages::new();
    let pattern = b"ab\0".to_vec();

    let regex = match RPN::<B4096>::build(&mut allocator, pattern) {
        Ok(regex) => regex,
        _ => return assert!(false),
    };

    assert_eq!(regex.as_bytes(), b"l2ab".to_vec());
}

#[test]
fn regex_rpn_handles_seq_of_alphabet() {
    let mut allocator = Naive64Pages::new();
    let pattern = b"abcdefghijklmnopqrstuvwxyz\0".to_vec();

    let regex = match RPN::<B4096>::build(&mut allocator, pattern) {
        Ok(regex) => regex,
        _ => return assert!(false),
    };

    assert_eq!(regex.as_bytes(), b"l9abcdefghil9jklmnopqr&l8stuvwxyz&".to_vec());
}

#[test]
fn regex_rpn_handles_either() {
    let mut allocator = Naive64Pages::new();
    let pattern = b"a|b\0".to_vec();

    let regex = match RPN::<B4096>::build(&mut allocator, pattern) {
        Ok(regex) => regex,
        _ => return assert!(false),
    };

    assert_eq!(regex.as_bytes(), b"l1al1b|".to_vec());
}

#[test]
fn regex_rpn_handles_star() {
    let mut allocator = Naive64Pages::new();
    let pattern = b"ab*\0".to_vec();

    let regex = match RPN::<B4096>::build(&mut allocator, pattern) {
        Ok(regex) => regex,
        _ => return assert!(false),
    };

    assert_eq!(regex.as_bytes(), b"l1al1b+?&".to_vec());
}

#[test]
fn regex_rpn_handles_plus() {
    let mut allocator = Naive64Pages::new();
    let pattern = b"ab+\0".to_vec();

    let regex = match RPN::<B4096>::build(&mut allocator, pattern) {
        Ok(regex) => regex,
        _ => return assert!(false),
    };

    assert_eq!(regex.as_bytes(), b"l1al1b+&".to_vec());
}

#[test]
fn regex_rpn_handles_optional() {
    let mut allocator = Naive64Pages::new();
    let pattern = b"ab?\0".to_vec();

    let regex = match RPN::<B4096>::build(&mut allocator, pattern) {
        Ok(regex) => regex,
        _ => return assert!(false),
    };

    assert_eq!(regex.as_bytes(), b"l1al1b?&".to_vec());
}

#[test]
fn regex_rpn_handles_optional_concatenated() {
    let mut allocator = Naive64Pages::new();
    let pattern = b"(st)?op\0".to_vec();

    let regex = match RPN::<B4096>::build(&mut allocator, pattern) {
        Ok(regex) => regex,
        _ => return assert!(false),
    };

    assert_eq!(regex.as_bytes(), b"l2st?l2op&".to_vec());
}

#[test]
fn regex_rpn_handles_either_and() {
    let mut allocator = Naive64Pages::new();
    let pattern = b"abcdefghijkl|mnopqrstuvwx\0".to_vec();

    let regex = match RPN::<B4096>::build(&mut allocator, pattern) {
        Ok(regex) => regex,
        _ => return assert!(false),
    };

    assert_eq!(regex.as_bytes(), b"l9abcdefghil3jkl&l9mnopqrstul3vwx&|".to_vec());
}

#[test]
fn regex_rpn_handles_group() {
    let mut allocator = Naive64Pages::new();
    let pattern = b"(ab)*|(cd)+\0".to_vec();

    let regex = match RPN::<B4096>::build(&mut allocator, pattern) {
        Ok(regex) => regex,
        _ => return assert!(false),
    };

    assert_eq!(regex.as_bytes(), b"l2ab+?l2cd+|".to_vec());
}

#[test]
fn regex_rpn_handles_class() {
    let mut allocator = Naive64Pages::new();
    let pattern = b"(ab)*|[a-z]+\0".to_vec();

    let regex = match RPN::<B4096>::build(&mut allocator, pattern) {
        Ok(regex) => regex,
        _ => return assert!(false),
    };

    assert_eq!(regex.as_bytes(), b"l2ab+?-az+|".to_vec());
}

#[test]
fn regex_rpn_handles_class_multiple() {
    let mut allocator = Naive64Pages::new();
    let pattern = b"(ab)*|[a-z0-9]+\0".to_vec();

    let regex = match RPN::<B4096>::build(&mut allocator, pattern) {
        Ok(regex) => regex,
        _ => return assert!(false),
    };

    assert_eq!(regex.as_bytes(), b"l2ab+?-09-az|+|".to_vec());
}

#[test]
fn regex_rpn_handles_class_multiple_negated() {
    let mut allocator = Naive64Pages::new();
    let pattern = b"(ab)*|[^a-z0-9]+\0".to_vec();

    let regex = match RPN::<B4096>::build(&mut allocator, pattern) {
        Ok(regex) => regex,
        _ => return assert!(false),
    };

    assert_eq!(regex.as_bytes(), b"l2ab+?-\x01\x2f-\x3a\x60|-\x7b\xff|+|".to_vec());
}

#[test]
fn regex_rpn_handles_nested_groups() {
    let mut allocator = Naive64Pages::new();
    let pattern = b"(0|(0+1+)+)+\0".to_vec();

    let regex = match RPN::<B4096>::build(&mut allocator, pattern) {
        Ok(regex) => regex,
        _ => return assert!(false),
    };

    assert_eq!(regex.as_bytes(), b"l10l10+l11+&+|+".to_vec());
}

#[test]
fn regex_rpn_handles_dividing_by_three_regex() {
    let mut allocator = Naive64Pages::new();
    let pattern = b"(0|(1(01*(00)*0)*1)*)*\0".to_vec();

    let regex = match RPN::<B4096>::build(&mut allocator, pattern) {
        Ok(regex) => regex,
        _ => return assert!(false),
    };

    assert_eq!(regex.as_bytes(), b"l10l11l10l11+?&l200+?&l10&+?&l11&+?|+?".to_vec());
}

#[test]
fn handles_rpn_from_multiple_appends() {
    let mut allocator = Naive64Pages::new();
    let mut builder = RPN::<B4096>::builder(&mut allocator).unwrap();

    builder.append(b"ab#x\0".to_vec()).unwrap();
    builder.append(b"cd#y\0".to_vec()).unwrap();

    let regex = match builder.build() {
        Ok(regex) => regex,
        _ => return assert!(false),
    };

    assert_eq!(regex.as_bytes(), b"l2ab#xl2cd#y|".to_vec());
}

#[test]
fn handles_rpn_error_from_double_negated_class() {
    let mut allocator = Naive64Pages::new();
    let pattern = b"[^^]\0".to_vec();

    match RPN::<B4096>::build(&mut allocator, pattern) {
        Err(RegexError::InvalidRegex {}) => {}
        _ => return assert!(false),
    };
}

#[test]
fn handles_rpn_error_from_negated_in_the_middle_class() {
    let mut allocator = Naive64Pages::new();
    let pattern = b"[a-z^]\0".to_vec();

    match RPN::<B4096>::build(&mut allocator, pattern) {
        Err(RegexError::InvalidRegex {}) => {}
        _ => return assert!(false),
    };
}

#[test]
fn regex_rpn_handles_invalid_token_after_appends() {
    let mut allocator = Naive64Pages::new();
    let mut builder = RPN::<B4096>::builder(&mut allocator).unwrap();

    builder.append(b"ab\0".to_vec()).unwrap();
    match builder.append(b"[^^]\0".to_vec()) {
        Err(RegexError::InvalidRegex {}) => {}
        _ => return assert!(false),
    };
}

#[test]
fn regex_rpn_needs_a_free_page() {
    let mut allocator = Naive64Pages::new();
    for _ in 0..64 {
        assert!(allocator.allocate(kernelkit::regex::pages::AllocatorBytes::B4096).is_some());
    }

    match RPN::<B4096>::build(&mut allocator, b"ab\0".to_vec()) {
        Err(RegexError::NotEnoughHeap {}) => {}
        _ => return assert!(false),
    };
}
