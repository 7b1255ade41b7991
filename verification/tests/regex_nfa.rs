use kernelkit::regex::heap::B4096;
use kernelkit::regex::nfa::Builder;
use kernelkit::regex::pages::Naive64Pages;
use kernelkit::regex::rpn::RPN;

#[test]
fn regex_nfa_handles_converting_rpn_seq_to_nfa() {
    let mut allocator = Naive64Pages::new();
    let builder = Builder::new(&mut allocator).unwrap();
    let rpn = RPN::<B4096>::from_bytes(&mut allocator, b"l5start").unwrap();

    let nfa = match builder.build(rpn) {
        Some(nfa) => nfa,
        None => return assert!(false),
    };

    // 0000 | 00 - 00 | 0000 | 0000 -> 0002
    // 0001 | 00 - 00 | 0000 | 0005 ->
    // 0002 | 00 - 00 | 0200 | 0009 -> 0003
    // 0003 | 73 - 73 | 0200 | 0004
    // 0004 | 74 - 74 | 0200 | 0005
    // 0005 | 61 - 61 | 0200 | 0006
    // 0006 | 72 - 72 | 0200 | 0007
    // 0007 | 74 - 74 | 0001 | 0008
    // 0008 | 00 - 00 | 0000 | 000e -> 0001

    assert_eq!(nfa.transition_count(), 9);
    assert_eq!(nfa.epsilons.list_count(), 4);

    // points at epsilon
    assert_eq!(nfa.transition_find(0, 0), Some((0x00, 0x00)));
    assert_eq!(nfa.epsilon_items_count(0x00), 1);
    assert_eq!(nfa.epsilon_items_get(0x00, 0), 2);

    // points at epsilon
    assert_eq!(nfa.transition_find(1, 0), Some((0x05, 0x00)));
    assert_eq!(nfa.epsilon_items_count(0x05), 0);

    // points at epsilon
    assert_eq!(nfa.transition_find(2, 0), Some((0x09, 0x0200)));
    assert_eq!(nfa.epsilon_items_count(0x09), 1);
    assert_eq!(nfa.epsilon_items_get(0x09, 0), 3);

    // connects 'start' literal
    assert_eq!(nfa.transition_find(3, b's'), Some((4, 0x0200)));
    assert_eq!(nfa.transition_find(4, b't'), Some((5, 0x0200)));
    assert_eq!(nfa.transition_find(5, b'a'), Some((6, 0x0200)));
    assert_eq!(nfa.transition_find(6, b'r'), Some((7, 0x0200)));
    assert_eq!(nfa.transition_find(7, b't'), Some((8, 0x01)));

    // points at epsilon
    assert_eq!(nfa.transition_find(8, 0), Some((0x0e, 0x00)));
    assert_eq!(nfa.epsilon_items_count(0x0e), 1);
    assert_eq!(nfa.epsilon_items_get(0x0e, 0), 1);
}

#[test]
fn handles_converting_rpn_class_to_nfa() {
    let mut allocator = Naive64Pages::new();
    let builder = Builder::new(&mut allocator).unwrap();
    let rpn = RPN::<B4096>::from_bytes(&mut allocator, b"-09").unwrap();

    let nfa = match builder.build(rpn) {
        Some(nfa) => nfa,
        None => return assert!(false),
    };

    // 0000 | 00 - 00 | 0000 | 0000 -> 0002
    // 0001 | 00 - 00 | 0000 | 0005 ->
    // 0002 | 00 - 00 | 0200 | 0009 -> 0003
    // 0003 | 30 - 39 | 0001 | 0004
    // 0004 | 00 - 00 | 0000 | 000e -> 0001

    assert_eq!(nfa.transition_count(), 5);
    assert_eq!(nfa.epsilons.list_count(), 4);

    // points at epsilon
    assert_eq!(nfa.transition_find(0, 0), Some((0x00, 0x00)));
    assert_eq!(nfa.epsilon_items_count(0x00), 1);
    assert_eq!(nfa.epsilon_items_get(0x00, 0), 2);

    // points at epsilon
    assert_eq!(nfa.transition_find(1, 0), Some((0x05, 0x00)));
    assert_eq!(nfa.epsilon_items_count(0x05), 0);

    // points at epsilon
    assert_eq!(nfa.transition_find(2, 0), Some((0x09, 0x0200)));
    assert_eq!(nfa.epsilon_items_count(0x09), 1);
    assert_eq!(nfa.epsilon_items_get(0x09, 0), 3);

    for idx in 48..58 {
        assert_eq!(nfa.transition_find(3, idx), Some((4, 0x01)));
    }

    // points at epsilon
    assert_eq!(nfa.transition_find(4, 0), Some((0x0e, 0x00)));
    assert_eq!(nfa.epsilon_items_count(0x0e), 1);
    assert_eq!(nfa.epsilon_items_get(0x0e, 0), 1);
}

#[test]
fn handles_converting_rpn_class_repeated_to_nfa() {
    let mut allocator = Naive64Pages::new();
    let builder = Builder::new(&mut allocator).unwrap();
    let rpn = RPN::<B4096>::from_bytes(&mut allocator, b"-09+").unwrap();

    let nfa = match builder.build(rpn) {
        Some(nfa) => nfa,
        None => return assert!(false),
    };

    // 0000 | 00 - 00 | 0000 | 0000 -> 0005
    // 0001 | 00 - 00 | 0000 | 0005 ->
    // 0002 | 00 - 00 | 0200 | 0009 -> 0003
    // 0003 | 30 - 39 | 0001 | 0004
    // 0004 | 00 - 00 | 0000 | 000e -> 0006
    // 0005 | 00 - 00 | 0000 | 0013 -> 0002
    // 0006 | 00 - 00 | 0000 | 0018 -> 0005 0007
    // 0007 | 00 - 00 | 0000 | 001e -> 0001

    assert_eq!(nfa.transition_count(), 8);
    assert_eq!(nfa.epsilons.list_count(), 7);

    // points at epsilon
    assert_eq!(nfa.transition_find(0, 0), Some((0x00, 0x00)));
    assert_eq!(nfa.epsilon_items_count(0x00), 1);
    assert_eq!(nfa.epsilon_items_get(0x00, 0), 5);

    // points at epsilon
    assert_eq!(nfa.transition_find(1, 0), Some((0x05, 0x00)));
    assert_eq!(nfa.epsilon_items_count(0x05), 0);

    // points at epsilon
    assert_eq!(nfa.transition_find(2, 0), Some((0x09, 0x0200)));
    assert_eq!(nfa.epsilon_items_count(0x09), 1);
    assert_eq!(nfa.epsilon_items_get(0x09, 0), 3);

    for idx in 48..58 {
        assert_eq!(nfa.transition_find(3, idx), Some((4, 0x01)));
    }

    // points at epsilon
    assert_eq!(nfa.transition_find(4, 0), Some((0x0e, 0x00)));
    assert_eq!(nfa.epsilon_items_count(0x0e), 1);
    assert_eq!(nfa.epsilon_items_get(0x0e, 0), 6);

    // points at epsilon
    assert_eq!(nfa.transition_find(5, 0), Some((0x13, 0x00)));
    assert_eq!(nfa.epsilon_items_count(0x13), 1);
    assert_eq!(nfa.epsilon_items_get(0x13, 0), 2);

    // points at epsilon
    assert_eq!(nfa.transition_find(6, 0), Some((0x18, 0x00)));
    assert_eq!(nfa.epsilon_items_count(0x18), 2);
    assert_eq!(nfa.epsilon_items_get(0x18, 0), 5);
    assert_eq!(nfa.epsilon_items_get(0x18, 1), 7);

    // points at epsilon
    assert_eq!(nfa.transition_find(7, 0), Some((0x1e, 0x00)));
    assert_eq!(nfa.epsilon_items_count(0x1e), 1);
    assert_eq!(nfa.epsilon_items_get(0x1e, 0), 1);
}

#[test]
fn regex_nfa_handles_converting_rpn_either_to_nfa() {
    let mut allocator = Naive64Pages::new();
    let builder = Builder::new(&mut allocator).unwrap();
    let rpn = RPN::<B4096>::from_bytes(&mut allocator, b"l5startl4stop|").unwrap();

    let nfa = match builder.build(rpn) {
        Some(nfa) => nfa,
        None => return assert!(false),
    };

    // 0000 | 00 - 00 | 0000 | 0000 -> 000f
    // 0001 | 00 - 00 | 0000 | 0005 ->
    // 0002 | 00 - 00 | 0200 | 0009 -> 0003
    // 0003 | 73 - 73 | 0200 | 0004
    // 0004 | 74 - 74 | 0200 | 0005
    // 0005 | 61 - 61 | 0200 | 0006
    // 0006 | 72 - 72 | 0200 | 0007
    // 0007 | 74 - 74 | 0001 | 0008
    // 0008 | 00 - 00 | 0000 | 000e -> 0010
    // 0009 | 00 - 00 | 0200 | 0013 -> 000a
    // 000a | 73 - 73 | 0200 | 000b
    // 000b | 74 - 74 | 0200 | 000c
    // 000c | 6f - 6f | 0200 | 000d
    // 000d | 70 - 70 | 0001 | 000e
    // 000e | 00 - 00 | 0000 | 0018 -> 0010
    // 000f | 00 - 00 | 0000 | 001d -> 0002 0009
    // 0010 | 00 - 00 | 0000 | 0023 -> 0001

    assert_eq!(nfa.transition_count(), 17);
    assert_eq!(nfa.epsilons.list_count(), 8);

    // points at epsilon
    assert_eq!(nfa.transition_find(0, 0), Some((0x00, 0x00)));
    assert_eq!(nfa.epsilon_items_count(0x00), 1);
    assert_eq!(nfa.epsilon_items_get(0x00, 0), 15);

    // points at epsilon
    assert_eq!(nfa.transition_find(1, 0), Some((0x05, 0x00)));
    assert_eq!(nfa.epsilon_items_count(0x05), 0);

    // points at epsilon, beginning of literal
    assert_eq!(nfa.transition_find(2, 0), Some((0x09, 0x0200)));
    assert_eq!(nfa.epsilon_items_count(0x09), 1);
    assert_eq!(nfa.epsilon_items_get(0x09, 0), 3);

    // connects 'start' literal
    assert_eq!(nfa.transition_find(3, b's'), Some((4, 0x0200)));
    assert_eq!(nfa.transition_find(4, b't'), Some((5, 0x0200)));
    assert_eq!(nfa.transition_find(5, b'a'), Some((6, 0x0200)));
    assert_eq!(nfa.transition_find(6, b'r'), Some((7, 0x0200)));
    assert_eq!(nfa.transition_find(7, b't'), Some((8, 0x01)));

    // points at epsilon
    assert_eq!(nfa.transition_find(8, 0), Some((0x0e, 0x00)));
    assert_eq!(nfa.epsilon_items_count(0x0e), 1);
    assert_eq!(nfa.epsilon_items_get(0x0e, 0), 16);

    // points at epsilon, beginning of literal
    assert_eq!(nfa.transition_find(9, 0), Some((0x13, 0x0200)));
    assert_eq!(nfa.epsilon_items_count(0x13), 1);
    assert_eq!(nfa.epsilon_items_get(0x13, 0), 10);

    // connects 'stop' literal
    assert_eq!(nfa.transition_find(10, b's'), Some((11, 0x0200)));
    assert_eq!(nfa.transition_find(11, b't'), Some((12, 0x0200)));
    assert_eq!(nfa.transition_find(12, b'o'), Some((13, 0x0200)));
    assert_eq!(nfa.transition_find(13, b'p'), Some((14, 0x01)));

    // points at epsilon
    assert_eq!(nfa.transition_find(14, 0), Some((0x18, 0)));
    assert_eq!(nfa.epsilon_items_count(0x18), 1);
    assert_eq!(nfa.epsilon_items_get(0x18, 0), 16);

    // points at epsilon
    assert_eq!(nfa.transition_find(15, 0), Some((0x1d, 0)));
    assert_eq!(nfa.epsilon_items_count(0x1d), 2);
    assert_eq!(nfa.epsilon_items_get(0x1d, 0), 2);
    assert_eq!(nfa.epsilon_items_get(0x1d, 1), 9);

    // points at epsilon
    assert_eq!(nfa.transition_find(16, 0), Some((0x23, 0)));
    assert_eq!(nfa.epsilon_items_count(0x23), 1);
    assert_eq!(nfa.epsilon_items_get(0x23, 0), 1);
}

#[test]
fn handles_converting_rpn_concat_to_nfa() {
    let mut allocator = Naive64Pages::new();
    let builder = Builder::new(&mut allocator).unwrap();
    let rpn = RPN::<B4096>::from_bytes(&mut allocator, b"l5startl4stop&").unwrap();

    let nfa = match builder.build(rpn) {
        Some(nfa) => nfa,
        None => return assert!(false),
    };

    // 0000 | 00 - 00 | 0000 | 0000 -> 000f
    // 0001 | 00 - 00 | 0000 | 0005 ->
    // 0002 | 00 - 00 | 0200 | 0009 -> 0003
    // 0003 | 73 - 73 | 0200 | 0004
    // 0004 | 74 - 74 | 0200 | 0005
    // 0005 | 61 - 61 | 0200 | 0006
    // 0006 | 72 - 72 | 0200 | 0007
    // 0007 | 74 - 74 | 0000 | 0008
    // 0008 | 00 - 00 | 0000 | 000e -> 0010
    // 0009 | 00 - 00 | 0200 | 0013 -> 000a
    // 000a | 73 - 73 | 0200 | 000b
    // 000b | 74 - 74 | 0200 | 000c
    // 000c | 6f - 6f | 0200 | 000d
    // 000d | 70 - 70 | 0001 | 000e
    // 000e | 00 - 00 | 0000 | 0018 -> 0011
    // 000f | 00 - 00 | 0000 | 001d -> 0002
    // 0010 | 00 - 00 | 0000 | 0022 -> 0009
    // 0011 | 00 - 00 | 0000 | 0027 -> 0001

    assert_eq!(nfa.transition_count(), 18);
    assert_eq!(nfa.epsilons.list_count(), 9);

    // points at epsilon
    assert_eq!(nfa.transition_find(0, 0), Some((0x00, 0x00)));
    assert_eq!(nfa.epsilon_items_count(0x00), 1);
    assert_eq!(nfa.epsilon_items_get(0x00, 0), 15);

    // points at epsilon
    assert_eq!(nfa.transition_find(1, 0), Some((0x05, 0x00)));
    assert_eq!(nfa.epsilon_items_count(0x05), 0);

    // points at epsilon, beginning of literal
    assert_eq!(nfa.transition_find(2, 0), Some((0x09, 0x0200)));
    assert_eq!(nfa.epsilon_items_count(0x09), 1);
    assert_eq!(nfa.epsilon_items_get(0x09, 0), 3);

    // connects 'start' literal
    assert_eq!(nfa.transition_find(3, b's'), Some((4, 0x0200)));
    assert_eq!(nfa.transition_find(4, b't'), Some((5, 0x0200)));
    assert_eq!(nfa.transition_find(5, b'a'), Some((6, 0x0200)));
    assert_eq!(nfa.transition_find(6, b'r'), Some((7, 0x0200)));
    assert_eq!(nfa.transition_find(7, b't'), Some((8, 0x00)));

    // points at epsilon
    assert_eq!(nfa.transition_find(8, 0), Some((0x0e, 0x00)));
    assert_eq!(nfa.epsilon_items_count(0x0e), 1);
    assert_eq!(nfa.epsilon_items_get(0x0e, 0), 16);

    // points at epsilon, beginning of literal
    assert_eq!(nfa.transition_find(9, 0), Some((0x13, 0x0200)));
    assert_eq!(nfa.epsilon_items_count(0x13), 1);
    assert_eq!(nfa.epsilon_items_get(0x13, 0), 10);

    // connects 'stop' literal
    assert_eq!(nfa.transition_find(10, b's'), Some((11, 0x0200)));
    assert_eq!(nfa.transition_find(11, b't'), Some((12, 0x0200)));
    assert_eq!(nfa.transition_find(12, b'o'), Some((13, 0x0200)));
    assert_eq!(nfa.transition_find(13, b'p'), Some((14, 0x01)));

    // points at epsilon
    assert_eq!(nfa.transition_find(14, 0), Some((0x18, 0)));
    assert_eq!(nfa.epsilon_items_count(0x18), 1);
    assert_eq!(nfa.epsilon_items_get(0x18, 0), 17);

    // points at epsilon
    assert_eq!(nfa.transition_find(15, 0), Some((0x1d, 0)));
    assert_eq!(nfa.epsilon_items_count(0x1d), 1);
    assert_eq!(nfa.epsilon_items_get(0x1d, 0), 2);

    // points at epsilon
    assert_eq!(nfa.transition_find(16, 0), Some((0x22, 0)));
    assert_eq!(nfa.epsilon_items_count(0x22), 1);
    assert_eq!(nfa.epsilon_items_get(0x22, 0), 9);

    // points at epsilon
    assert_eq!(nfa.transition_find(17, 0), Some((0x27, 0)));
    assert_eq!(nfa.epsilon_items_count(0x27), 1);
    assert_eq!(nfa.epsilon_items_get(0x27, 0), 1);
}

#[test]
fn handles_converting_rpn_optional_left_to_nfa() {
    let mut allocator = Naive64Pages::new();
    let builder = Builder::new(&mut allocator).unwrap();
    let rpn = RPN::<B4096>::from_bytes(&mut allocator, b"l2st?l2op&").unwrap();

    let nfa = match builder.build(rpn) {
        Some(nfa) => nfa,
        None => return assert!(false),
    };

    // 0000 | 00 - 00 | 0000 | 0000 -> 000c
    // 0001 | 00 - 00 | 0000 | 0005 ->
    // 0002 | 00 - 00 | 0200 | 0009 -> 0003
    // 0003 | 73 - 73 | 0200 | 0004
    // 0004 | 74 - 74 | 0000 | 0005
    // 0005 | 00 - 00 | 0000 | 000e -> 0007
    // 0006 | 00 - 00 | 0000 | 0013 -> 0002 0007
    // 0007 | 00 - 00 | 0000 | 0019 -> 000d
    // 0008 | 00 - 00 | 0200 | 001e -> 0009
    // 0009 | 6f - 6f | 0200 | 000a
    // 000a | 70 - 70 | 0001 | 000b
    // 000b | 00 - 00 | 0000 | 0023 -> 000e
    // 000c | 00 - 00 | 0000 | 0028 -> 0006
    // 000d | 00 - 00 | 0000 | 002d -> 0008
    // 000e | 00 - 00 | 0000 | 0032 -> 0001

    assert_eq!(nfa.transition_count(), 15);
    assert_eq!(nfa.epsilons.list_count(), 11);

    // points at epsilon
    assert_eq!(nfa.transition_find(0, 0), Some((0x00, 0x00)));
    assert_eq!(nfa.epsilon_items_count(0x00), 1);
    assert_eq!(nfa.epsilon_items_get(0x00, 0), 12);

    // points at epsilon
    assert_eq!(nfa.transition_find(1, 0), Some((0x05, 0x00)));
    assert_eq!(nfa.epsilon_items_count(0x05), 0);

    // points at epsilon
    assert_eq!(nfa.transition_find(2, 0), Some((0x09, 0x0200)));
    assert_eq!(nfa.epsilon_items_count(0x09), 1);
    assert_eq!(nfa.epsilon_items_get(0x09, 0), 3);

    // connects 'st' literal
    assert_eq!(nfa.transition_find(3, b's'), Some((4, 0x0200)));
    assert_eq!(nfa.transition_find(4, b't'), Some((5, 0x00)));

    // points at epsilon
    assert_eq!(nfa.transition_find(5, 0), Some((0x0e, 0x00)));
    assert_eq!(nfa.epsilon_items_count(0x0e), 1);
    assert_eq!(nfa.epsilon_items_get(0x0e, 0), 7);

    // points at epsilon
    assert_eq!(nfa.transition_find(6, 0), Some((0x13, 0x00)));
    assert_eq!(nfa.epsilon_items_count(0x13), 2);
    assert_eq!(nfa.epsilon_items_get(0x13, 0), 2);
    assert_eq!(nfa.epsilon_items_get(0x13, 1), 7);

    // points at epsilon
    assert_eq!(nfa.transition_find(7, 0), Some((0x19, 0x00)));
    assert_eq!(nfa.epsilon_items_count(0x19), 1);
    assert_eq!(nfa.epsilon_items_get(0x19, 0), 13);

    // points at epsilon
    assert_eq!(nfa.transition_find(8, 0), Some((0x1e, 0x0200)));
    assert_eq!(nfa.epsilon_items_count(0x1e), 1);
    assert_eq!(nfa.epsilon_items_get(0x1e, 0), 9);

    // connects 'op' literal
    assert_eq!(nfa.transition_find(9, b'o'), Some((10, 0x0200)));
    assert_eq!(nfa.transition_find(10, b'p'), Some((11, 0x01)));

    // points at epsilon
    assert_eq!(nfa.transition_find(11, 0), Some((0x23, 0x00)));
    assert_eq!(nfa.epsilon_items_count(0x23), 1);
    assert_eq!(nfa.epsilon_items_get(0x23, 0), 14);

    // points at epsilon
    assert_eq!(nfa.transition_find(12, 0), Some((0x28, 0x00)));
    assert_eq!(nfa.epsilon_items_count(0x28), 1);
    assert_eq!(nfa.epsilon_items_get(0x28, 0), 6);

    // points at epsilon
    assert_eq!(nfa.transition_find(13, 0), Some((0x2d, 0x00)));
    assert_eq!(nfa.epsilon_items_count(0x2d), 1);
    assert_eq!(nfa.epsilon_items_get(0x2d, 0), 8);

    // points at epsilon
    assert_eq!(nfa.transition_find(14, 0), Some((0x32, 0x00)));
    assert_eq!(nfa.epsilon_items_count(0x32), 1);
    assert_eq!(nfa.epsilon_items_get(0x32, 0), 1);
}

#[test]
fn handles_converting_rpn_optional_right_to_nfa() {
    let mut allocator = Naive64Pages::new();
    let builder = Builder::new(&mut allocator).unwrap();
    let rpn = RPN::<B4096>::from_bytes(&mut allocator, b"l2stl2op?&").unwrap();

    let nfa = match builder.build(rpn) {
        Some(nfa) => nfa,
        None => return assert!(false),
    };

    // 0000 | 00 - 00 | 0000 | 0000 -> 000c
    // 0001 | 00 - 00 | 0000 | 0005 ->
    // 0002 | 00 - 00 | 0200 | 0009 -> 0003
    // 0003 | 73 - 73 | 0200 | 0004
    // 0004 | 74 - 74 | 0001 | 0005
    // 0005 | 00 - 00 | 0000 | 000e -> 000d
    // 0006 | 00 - 00 | 0200 | 0013 -> 0007
    // 0007 | 6f - 6f | 0200 | 0008
    // 0008 | 70 - 70 | 0001 | 0009
    // 0009 | 00 - 00 | 0000 | 0018 -> 000b
    // 000a | 00 - 00 | 0000 | 001d -> 0006 000b
    // 000b | 00 - 00 | 0000 | 0023 -> 000e
    // 000c | 00 - 00 | 0000 | 0028 -> 0002
    // 000d | 00 - 00 | 0000 | 002d -> 000a
    // 000e | 00 - 00 | 0000 | 0032 -> 0001

    assert_eq!(nfa.transition_count(), 15);
    assert_eq!(nfa.epsilons.list_count(), 11);

    // points at epsilon
    assert_eq!(nfa.transition_find(0, 0), Some((0x00, 0x00)));
    assert_eq!(nfa.epsilon_items_count(0x00), 1);
    assert_eq!(nfa.epsilon_items_get(0x00, 0), 12);

    // points at epsilon
    assert_eq!(nfa.transition_find(1, 0), Some((0x05, 0x00)));
    assert_eq!(nfa.epsilon_items_count(0x05), 0);

    // points at epsilon
    assert_eq!(nfa.transition_find(2, 0), Some((0x09, 0x0200)));
    assert_eq!(nfa.epsilon_items_count(0x09), 1);
    assert_eq!(nfa.epsilon_items_get(0x09, 0), 3);

    // connects 'st' literal
    assert_eq!(nfa.transition_find(3, b's'), Some((4, 0x0200)));
    assert_eq!(nfa.transition_find(4, b't'), Some((5, 0x01)));

    // points at epsilon
    assert_eq!(nfa.transition_find(5, 0), Some((0x0e, 0x00)));
    assert_eq!(nfa.epsilon_items_count(0x0e), 1);
    assert_eq!(nfa.epsilon_items_get(0x0e, 0), 13);

    // points at epsilon
    assert_eq!(nfa.transition_find(6, 0), Some((0x13, 0x0200)));
    assert_eq!(nfa.epsilon_items_count(0x13), 1);
    assert_eq!(nfa.epsilon_items_get(0x13, 0), 7);

    // connects 'op' literal
    assert_eq!(nfa.transition_find(7, b'o'), Some((8, 0x0200)));
    assert_eq!(nfa.transition_find(8, b'p'), Some((9, 0x01)));

    // points at epsilon
    assert_eq!(nfa.transition_find(9, 0), Some((0x18, 0x00)));
    assert_eq!(nfa.epsilon_items_count(0x18), 1);
    assert_eq!(nfa.epsilon_items_get(0x18, 0), 11);

    // points at epsilon
    assert_eq!(nfa.transition_find(10, 0), Some((0x1d, 0x00)));
    assert_eq!(nfa.epsilon_items_count(0x1d), 2);
    assert_eq!(nfa.epsilon_items_get(0x1d, 0), 6);
    assert_eq!(nfa.epsilon_items_get(0x1d, 1), 11);

    // points at epsilon
    assert_eq!(nfa.transition_find(11, 0), Some((0x23, 0x00)));
    assert_eq!(nfa.epsilon_items_count(0x23), 1);
    assert_eq!(nfa.epsilon_items_get(0x23, 0), 14);

    // points at epsilon
    assert_eq!(nfa.transition_find(12, 0), Some((0x28, 0x00)));
    assert_eq!(nfa.epsilon_items_count(0x28), 1);
    assert_eq!(nfa.epsilon_items_get(0x28, 0), 2);

    // points at epsilon
    assert_eq!(nfa.transition_find(13, 0), Some((0x2d, 0x00)));
    assert_eq!(nfa.epsilon_items_count(0x2d), 1);
    assert_eq!(nfa.epsilon_items_get(0x2d, 0), 10);

    // points at epsilon
    assert_eq!(nfa.transition_find(14, 0), Some((0x32, 0x00)));
    assert_eq!(nfa.epsilon_items_count(0x32), 1);
    assert_eq!(nfa.epsilon_items_get(0x32, 0), 1);
}

#[test]
fn handles_converting_rpn_repeat_to_nfa() {
    let mut allocator = Naive64Pages::new();
    let builder = Builder::new(&mut allocator).unwrap();
    let rpn = RPN::<B4096>::from_bytes(&mut allocator, b"l4stop+").unwrap();

    let nfa = match builder.build(rpn) {
        Some(nfa) => nfa,
        None => return assert!(false),
    };

    // 0000 | 00 - 00 | 0000 | 0000 -> 0008
    // 0001 | 00 - 00 | 0000 | 0005 ->
    // 0002 | 00 - 00 | 0200 | 0009 -> 0003
    // 0003 | 73 - 73 | 0200 | 0004
    // 0004 | 74 - 74 | 0200 | 0005
    // 0005 | 6f - 6f | 0200 | 0006
    // 0006 | 70 - 70 | 0001 | 0007
    // 0007 | 00 - 00 | 0000 | 000e -> 0009
    // 0008 | 00 - 00 | 0000 | 0013 -> 0002
    // 0009 | 00 - 00 | 0000 | 0018 -> 0008 000a
    // 000a | 00 - 00 | 0000 | 001e -> 0001

    assert_eq!(nfa.transition_count(), 11);
    assert_eq!(nfa.epsilons.list_count(), 7);

    // points at epsilon
    assert_eq!(nfa.transition_find(0, 0), Some((0x00, 0x00)));
    assert_eq!(nfa.epsilon_items_count(0x00), 1);
    assert_eq!(nfa.epsilon_items_get(0x00, 0), 8);

    // points at epsilon
    assert_eq!(nfa.transition_find(1, 0), Some((0x05, 0x00)));
    assert_eq!(nfa.epsilon_items_count(0x05), 0);

    // points at epsilon
    assert_eq!(nfa.transition_find(2, 0), Some((0x09, 0x0200)));
    assert_eq!(nfa.epsilon_items_count(0x09), 1);
    assert_eq!(nfa.epsilon_items_get(0x09, 0), 3);

    // connects 'stop' literal
    assert_eq!(nfa.transition_find(3, b's'), Some((4, 0x0200)));
    assert_eq!(nfa.transition_find(4, b't'), Some((5, 0x0200)));
    assert_eq!(nfa.transition_find(5, b'o'), Some((6, 0x0200)));
    assert_eq!(nfa.transition_find(6, b'p'), Some((7, 0x01)));

    // points at epsilon
    assert_eq!(nfa.transition_find(7, 0), Some((0x0e, 0x00)));
    assert_eq!(nfa.epsilon_items_count(0x0e), 1);
    assert_eq!(nfa.epsilon_items_get(0x0e, 0), 9);

    // points at epsilon
    assert_eq!(nfa.transition_find(8, 0), Some((0x13, 0x00)));
    assert_eq!(nfa.epsilon_items_count(0x13), 1);
    assert_eq!(nfa.epsilon_items_get(0x13, 0), 2);

    // points at epsilon
    assert_eq!(nfa.transition_find(9, 0), Some((0x18, 0x00)));
    assert_eq!(nfa.epsilon_items_count(0x18), 2);
    assert_eq!(nfa.epsilon_items_get(0x18, 0), 8);
    assert_eq!(nfa.epsilon_items_get(0x18, 1), 10);

    // points at epsilon
    assert_eq!(nfa.transition_find(10, 0), Some((0x1e, 0x00)));
    assert_eq!(nfa.epsilon_items_count(0x1e), 1);
    assert_eq!(nfa.epsilon_items_get(0x1e, 0), 1);
}

#[test]
fn handles_converting_rpn_zero_followed_by_two_optional_numbers_to_nfa() {
    let mut allocator = Naive64Pages::new();
    let builder = Builder::new(&mut allocator).unwrap();
    let rpn = RPN::<B4096>::from_bytes(&mut allocator, b"l10l11?&l12?&").unwrap();

    let nfa = match builder.build(rpn) {
        Some(nfa) => nfa,
        None => return assert!(false),
    };

    // 0000 | 00 - 00 | 0000 | 0000 -> 0012
    // 0001 | 00 - 00 | 0000 | 0005 ->
    // 0002 | 00 - 00 | 0200 | 0009 -> 0003
    // 0003 | 30 - 30 | 0001 | 0004
    // 0004 | 00 - 00 | 0000 | 000e -> 000b
    // 0005 | 00 - 00 | 0200 | 0013 -> 0006
    // 0006 | 31 - 31 | 0001 | 0007
    // 0007 | 00 - 00 | 0000 | 0018 -> 0009
    // 0008 | 00 - 00 | 0000 | 001d -> 0005 0009
    // 0009 | 00 - 00 | 0000 | 0023 -> 000c
    // 000a | 00 - 00 | 0000 | 0028 -> 0002
    // 000b | 00 - 00 | 0000 | 002d -> 0008
    // 000c | 00 - 00 | 0000 | 0032 -> 0013
    // 000d | 00 - 00 | 0200 | 0037 -> 000e
    // 000e | 32 - 32 | 0001 | 000f
    // 000f | 00 - 00 | 0000 | 003c -> 0011
    // 0010 | 00 - 00 | 0000 | 0041 -> 000d 0011
    // 0011 | 00 - 00 | 0000 | 0047 -> 0014
    // 0012 | 00 - 00 | 0000 | 004c -> 000a
    // 0013 | 00 - 00 | 0000 | 0051 -> 0010
    // 0014 | 00 - 00 | 0000 | 0056 -> 0001

    assert_eq!(nfa.transition_count(), 21);
    assert_eq!(nfa.epsilons.list_count(), 18);

    // points at epsilon
    assert_eq!(nfa.transition_find(0, 0), Some((0x00, 0x00)));
    assert_eq!(nfa.epsilon_items_count(0x00), 1);
    assert_eq!(nfa.epsilon_items_get(0x00, 0), 18);

    // points at epsilon
    assert_eq!(nfa.transition_find(1, 0), Some((0x05, 0x00)));
    assert_eq!(nfa.epsilon_items_count(0x05), 0);

    // points at epsilon
    assert_eq!(nfa.transition_find(2, 0), Some((0x09, 0x0200)));
    assert_eq!(nfa.epsilon_items_count(0x09), 1);
    assert_eq!(nfa.epsilon_items_get(0x09, 0), 3);

    // connects '0' literal
    assert_eq!(nfa.transition_find(3, b'0'), Some((4, 0x01)));

    // points at epsilon
    assert_eq!(nfa.transition_find(4, 0), Some((0x0e, 0x00)));
    assert_eq!(nfa.epsilon_items_count(0x0e), 1);
    assert_eq!(nfa.epsilon_items_get(0x0e, 0), 11);

    // points at epsilon
    assert_eq!(nfa.transition_find(5, 0), Some((0x13, 0x0200)));
    assert_eq!(nfa.epsilon_items_count(0x13), 1);
    assert_eq!(nfa.epsilon_items_get(0x13, 0), 6);

    // connects '1' literal
    assert_eq!(nfa.transition_find(6, b'1'), Some((7, 0x01)));

    // points at epsilon
    assert_eq!(nfa.transition_find(7, 0), Some((0x18, 0x00)));
    assert_eq!(nfa.epsilon_items_count(0x18), 1);
    assert_eq!(nfa.epsilon_items_get(0x18, 0), 9);

    // points at epsilon
    assert_eq!(nfa.transition_find(8, 0), Some((0x1d, 0x00)));
    assert_eq!(nfa.epsilon_items_count(0x1d), 2);
    assert_eq!(nfa.epsilon_items_get(0x1d, 0), 5);
    assert_eq!(nfa.epsilon_items_get(0x1d, 1), 9);

    // points at epsilon
    assert_eq!(nfa.transition_find(9, 0), Some((0x23, 0x00)));
    assert_eq!(nfa.epsilon_items_count(0x23), 1);
    assert_eq!(nfa.epsilon_items_get(0x23, 0), 12);

    // points at epsilon
    assert_eq!(nfa.transition_find(10, 0), Some((0x28, 0x00)));
    assert_eq!(nfa.epsilon_items_count(0x28), 1);
    assert_eq!(nfa.epsilon_items_get(0x28, 0), 2);

    // points at epsilon
    assert_eq!(nfa.transition_find(11, 0), Some((0x2d, 0x00)));
    assert_eq!(nfa.epsilon_items_count(0x2d), 1);
    assert_eq!(nfa.epsilon_items_get(0x2d, 0), 8);

    // points at epsilon
    assert_eq!(nfa.transition_find(12, 0), Some((0x32, 0x00)));
    assert_eq!(nfa.epsilon_items_count(0x32), 1);
    assert_eq!(nfa.epsilon_items_get(0x32, 0), 19);

    // points at epsilon
    assert_eq!(nfa.transition_find(13, 0), Some((0x37, 0x0200)));
    assert_eq!(nfa.epsilon_items_count(0x37), 1);
    assert_eq!(nfa.epsilon_items_get(0x37, 0), 14);

    // connects '2' literal
    assert_eq!(nfa.transition_find(14, b'2'), Some((15, 0x01)));

    // points at epsilon
    assert_eq!(nfa.transition_find(15, 0), Some((0x3c, 0x00)));
    assert_eq!(nfa.epsilon_items_count(0x3c), 1);
    assert_eq!(nfa.epsilon_items_get(0x3c, 0), 17);

    // points at epsilon
    assert_eq!(nfa.transition_find(16, 0), Some((0x41, 0x00)));
    assert_eq!(nfa.epsilon_items_count(0x41), 2);
    assert_eq!(nfa.epsilon_items_get(0x41, 0), 13);
    assert_eq!(nfa.epsilon_items_get(0x41, 1), 17);

    // points at epsilon
    assert_eq!(nfa.transition_find(17, 0), Some((0x47, 0x00)));
    assert_eq!(nfa.epsilon_items_count(0x47), 1);
    assert_eq!(nfa.epsilon_items_get(0x47, 0), 20);

    // points at epsilon
    assert_eq!(nfa.transition_find(18, 0), Some((0x4c, 0x00)));
    assert_eq!(nfa.epsilon_items_count(0x4c), 1);
    assert_eq!(nfa.epsilon_items_get(0x4c, 0), 10);

    // points at epsilon
    assert_eq!(nfa.transition_find(19, 0), Some((0x51, 0x00)));
    assert_eq!(nfa.epsilon_items_count(0x51), 1);
    assert_eq!(nfa.epsilon_items_get(0x51, 0), 16);

    // points at epsilon
    assert_eq!(nfa.transition_find(20, 0), Some((0x56, 0x00)));
    assert_eq!(nfa.epsilon_items_count(0x56), 1);
    assert_eq!(nfa.epsilon_items_get(0x56, 0), 1);
}

#[test]
fn handles_converting_rpn_accept_to_nfa() {
    let mut allocator = Naive64Pages::new();
    let builder = Builder::new(&mut allocator).unwrap();
    let rpn = RPN::<B4096>::from_bytes(&mut allocator, b"l1s#x").unwrap();

    let nfa = match builder.build(rpn) {
        Some(nfa) => nfa,
        None => return assert!(false),
    };

    // 0000 | 00 - 00 | 0000 | 0000 -> 0002
    // 0001 | 00 - 00 | 0000 | 0005 ->
    // 0002 | 00 - 00 | 0200 | 0009 -> 0003
    // 0003 | 73 - 73 | 0078 | 0004
    // 0004 | 00 - 00 | 0000 | 000e -> 0001

    assert_eq!(nfa.transition_count(), 5);
    assert_eq!(nfa.epsilons.list_count(), 4);

    // points at epsilon
    assert_eq!(nfa.transition_find(0, 0), Some((0x00, 0x00)));
    assert_eq!(nfa.epsilon_items_count(0x00), 1);
    assert_eq!(nfa.epsilon_items_get(0x00, 0), 2);

    // points at epsilon
    assert_eq!(nfa.transition_find(1, 0), Some((0x05, 0x00)));
    assert_eq!(nfa.epsilon_items_count(0x05), 0);

    // points at epsilon
    assert_eq!(nfa.transition_find(2, 0), Some((0x09, 0x0200)));
    assert_eq!(nfa.epsilon_items_count(0x09), 1);
    assert_eq!(nfa.epsilon_items_get(0x09, 0), 3);

    // connects 's' literal
    assert_eq!(nfa.transition_find(3, b's'), Some((4, 0x78)));

    // points at epsilon
    assert_eq!(nfa.transition_find(4, 0), Some((0x0e, 0x00)));
    assert_eq!(nfa.epsilon_items_count(0x0e), 1);
    assert_eq!(nfa.epsilon_items_get(0x0e, 0), 1);
}

#[test]
fn regex_nfa_builder_needs_room_for_its_blocks() {
    let mut allocator = Naive64Pages::new();
    // leaves a single free page: too little for the transitions' two pages
    for _ in 0..63 {
        assert!(allocator.allocate(kernelkit::regex::pages::AllocatorBytes::B4096).is_some());
    }

    assert!(Builder::new(&mut allocator).is_none());
}

#[test]
fn regex_nfa_built_transitions_leave_their_own_states() {
    let mut allocator = Naive64Pages::new();
    let builder = Builder::new(&mut allocator).unwrap();
    let rpn = RPN::<B4096>::from_bytes(&mut allocator, b"l2st?l2op&").unwrap();

    let nfa = match builder.build(rpn) {
        Some(nfa) => nfa,
        None => return assert!(false),
    };

    let count = nfa.transition_count();
    for idx in 0..count {
        assert_eq!(nfa.transition_at(idx).0, idx);
        assert_eq!(nfa.transition_find_all(idx), Some((idx, idx)));
    }
    assert_eq!(nfa.transition_find_all(count), None);
    assert_eq!(nfa.transition_find(3, b'x'), None);
    assert_eq!(nfa.epsilon_items_count(0x05), 0);
}
