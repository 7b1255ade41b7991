use kernelkit::rpn::RPN;

#[test]
fn rpn_handles_rpn_from_seq_of_one_character() {
    let regex = match RPN::build(b"a\0".to_vec()) {
        Some(regex) => regex,
        None => return assert!(false),
    };

    assert_eq!(regex.as_bytes(), b"l1a".to_vec());
}

#[test]
fn rpn_handles_rpn_from_seq_of_two_characters() {
    let regex = match RPN::build(b"ab\0".to_vec()) {
        Some(regex) => regex,
        None => return assert!(false),
    };

    assert_eq!(regex.as_bytes(), b"l2ab".to_vec());
}

#[test]
fn rpn_handles_rpn_from_seq_of_alphabet() {
    let regex = match RPN::build(b"abcdefghijklmnopqrstuvwxyz\0".to_vec()) {
        Some(regex) => regex,
        None => return assert!(false),
    };

    assert_eq!(regex.as_bytes(), b"l9abcdefghil9jklmnopqrl8stuvwxyz&&".to_vec());
}

#[test]
fn rpn_handles_rpn_from_either() {
    let regex = match RPN::build(b"a|b\0".to_vec()) {
        Some(regex) => regex,
        None => return assert!(false),
    };

    assert_eq!(regex.as_bytes(), b"l1al1b|".to_vec());
}

#[test]
fn rpn_handles_rpn_from_star() {
    let regex = match RPN::build(b"ab*\0".to_vec()) {
        Some(regex) => regex,
        None => return assert!(false),
    };

    assert_eq!(regex.as_bytes(), b"l1al1b+?&".to_vec());
}

#[test]
fn rpn_handles_rpn_from_plus() {
    let regex = match RPN::build(b"ab+\0".to_vec()) {
        Some(regex) => regex,
        None => return assert!(false),
    };

    assert_eq!(regex.as_bytes(), b"l1al1b+&".to_vec());
}

#[test]
fn rpn_handles_rpn_from_optional() {
    let regex = match RPN::build(b"ab?\0".to_vec()) {
        Some(regex) => regex,
        None => return assert!(false),
    };

    assert_eq!(regex.as_bytes(), b"l1al1b?&".to_vec());
}

#[test]
fn rpn_handles_rpn_from_optional_concatenated() {
    let regex = match RPN::build(b"(st)?op\0".to_vec()) {
        Some(regex) => regex,
        None => return assert!(false),
    };

    assert_eq!(regex.as_bytes(), b"l2st?l2op&".to_vec());
}

#[test]
fn rpn_handles_rpn_from_either_and() {
    let regex = match RPN::build(b"abcdefghijkl|mnopqrstuvwx\0".to_vec()) {
        Some(regex) => regex,
        None => return assert!(false),
    };

    assert_eq!(regex.as_bytes(), b"l9abcdefghil3jkl&l9mnopqrstul3vwx&|".to_vec());
}

#[test]
fn rpn_handles_rpn_from_group() {
    let regex = match RPN::build(b"(ab)*|(cd)+\0".to_vec()) {
        Some(regex) => regex,
        None => return assert!(false),
    };

    assert_eq!(regex.as_bytes(), b"l2ab+?l2cd+|".to_vec());
}

#[test]
fn rpn_handles_rpn_from_class() {
    let regex = match RPN::build(b"(ab)*|[a-z]+\0".to_vec()) {
        Some(regex) => regex,
        None => return assert!(false),
    };

    assert_eq!(regex.as_bytes(), b"l2ab+?-az+|".to_vec());
}

#[test]
fn rpn_handles_rpn_from_class_multiple() {
    let regex = match RPN::build(b"(ab)*|[a-z0-9]+\0".to_vec()) {
        Some(regex) => regex,
        None => return assert!(false),
    };

    assert_eq!(regex.as_bytes(), b"l2ab+?-az-09|+|".to_vec());
}

#[test]
fn rpn_handles_rpn_from_class_multiple_negated() {
    let regex = match RPN::build(b"(ab)*|[^a-z0-9]+\0".to_vec()) {
        Some(regex) => regex,
        None => return assert!(false),
    };

    assert_eq!(regex.as_bytes(), b"l2ab+?!az!09|+|".to_vec());
}

#[test]
fn rpn_handles_rpn_from_nested_groups() {
    let regex = match RPN::build(b"(0|(0+1+)+)+\0".to_vec()) {
        Some(regex) => regex,
        None => return assert!(false),
    };

    assert_eq!(regex.as_bytes(), b"l10l10+l11+&+|+".to_vec());
}

#[test]
fn rpn_handles_rpn_from_dividing_by_three_regex() {
    let regex = match RPN::build(b"(0|(1(01*(00)*0)*1)*)*\0".to_vec()) {
        Some(regex) => regex,
        None => return assert!(false),
    };

    assert_eq!(regex.as_bytes(), b"l10l11l10l11+?l200+?l10&&&+?l11&&+?|+?".to_vec());
}
