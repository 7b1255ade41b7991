use kernelkit::nfa::Builder;
use kernelkit::regex::pages::Naive64Pages;
use kernelkit::rpn::RPN;

#[test]
fn nfa_handles_converting_rpn_seq_to_nfa() {
    let mut allocator = Naive64Pages::new();
    let builder = Builder::new(&mut allocator).unwrap();
    let rpn = RPN::from_bytes(b"l5start");

    let nfa = match builder.build(rpn) {
        Some(nfa) => nfa,
        None => return assert!(false),
    };

    // 0000 | 00 - 00 | 0000 | 0000 -> 0002
    // 0001 | 00 - 00 | 0000 | 0005 ->
    // 0002 | 00 - 00 | 0002 | 0009 -> 0003
    // 0003 | 73 - 73 | 0002 | 0004
    // 0004 | 74 - 74 | 0002 | 0005
    // 0005 | 61 - 61 | 0002 | 0006
    // 0006 | 72 - 72 | 0002 | 0007
    // 0007 | 74 - 74 | 0002 | 0008
    // 0008 | 00 - 00 | 0000 | 000e -> 0001

    assert_eq!(nfa.transition_count(), 9);
    assert_eq!(nfa.epsilon_count(), 4);

    // points at epsilon
    assert_eq!(nfa.transition_find(0, 0), Some((0x00, 0x00)));
    assert_eq!(nfa.epsilon_items_count(0x00), 1);
    assert_eq!(nfa.epsilon_items_get(0x00, 0), 2);

    // points at epsilon
    assert_eq!(nfa.transition_find(1, 0), Some((0x05, 0x00)));
    assert_eq!(nfa.epsilon_items_count(0x05), 0);

    // points at epsilon
    assert_eq!(nfa.transition_find(2, 0), Some((0x09, 0x02)));
    assert_eq!(nfa.epsilon_items_count(0x09), 1);
    assert_eq!(nfa.epsilon_items_get(0x09, 0), 3);

    // connects 'start' literal
    assert_eq!(nfa.transition_find(3, b's'), Some((4, 0x02)));
    assert_eq!(nfa.transition_find(4, b't'), Some((5, 0x02)));
    assert_eq!(nfa.transition_find(5, b'a'), Some((6, 0x02)));
    assert_eq!(nfa.transition_find(6, b'r'), Some((7, 0x02)));

    // points at epsilon
    assert_eq!(nfa.transition_find(8, 0), Some((0x0e, 0x00)));
    assert_eq!(nfa.epsilon_items_count(0x0e), 1);
    assert_eq!(nfa.epsilon_items_get(0x0e, 0), 1);
}

#[test]
fn nfa_handles_converting_rpn_either_to_nfa() {
    let mut allocator = Naive64Pages::new();
    let builder = Builder::new(&mut allocator).unwrap();
    let rpn = RPN::from_bytes(b"l5startl4stop|");

    let nfa = match builder.build(rpn) {
        Some(nfa) => nfa,
        None => return assert!(false),
    };

    // 0000 | 00 - 00 | 0000 | 0000 -> 000f
    // 0001 | 00 - 00 | 0000 | 0005 ->
    // 0002 | 00 - 00 | 0002 | 0009 -> 0003
    // 0003 | 73 - 73 | 0002 | 0004
    // 0004 | 74 - 74 | 0002 | 0005
    // 0005 | 61 - 61 | 0002 | 0006
    // 0006 | 72 - 72 | 0002 | 0007
    // 0007 | 74 - 74 | 0002 | 0008
    // 0008 | 00 - 00 | 0000 | 000e -> 0010
    // 0009 | 00 - 00 | 0002 | 0013 -> 000a
    // 000a | 73 - 73 | 0002 | 000b
    // 000b | 74 - 74 | 0002 | 000c
    // 000c | 6f - 6f | 0002 | 000d
    // 000d | 70 - 70 | 0002 | 000e
    // 000e | 00 - 00 | 0000 | 0018 -> 0010
    // 000f | 00 - 00 | 0000 | 001d -> 0002 0009
    // 0010 | 00 - 00 | 0000 | 0023 -> 0001

    assert_eq!(nfa.transition_count(), 17);
    assert_eq!(nfa.epsilon_count(), 8);

    // points at epsilon
    assert_eq!(nfa.transition_find(0, 0), Some((0x00, 0x00)));
    assert_eq!(nfa.epsilon_items_count(0x00), 1);
    assert_eq!(nfa.epsilon_items_get(0x00, 0), 15);

    // points at epsilon
    assert_eq!(nfa.transition_find(1, 0), Some((0x05, 0x00)));
    assert_eq!(nfa.epsilon_items_count(0x05), 0);

    // points at epsilon, beginning of literal
    assert_eq!(nfa.transition_find(2, 0), Some((0x09, 0x02)));
    assert_eq!(nfa.epsilon_items_count(0x09), 1);
    assert_eq!(nfa.epsilon_items_get(0x09, 0), 3);

    // connects 'start' literal
    assert_eq!(nfa.transition_find(3, b's'), Some((4, 0x02)));
    assert_eq!(nfa.transition_find(4, b't'), Some((5, 0x02)));
    assert_eq!(nfa.transition_find(5, b'a'), Some((6, 0x02)));
    assert_eq!(nfa.transition_find(6, b'r'), Some((7, 0x02)));

    // points at epsilon
    assert_eq!(nfa.transition_find(8, 0), Some((0x0e, 0x00)));
    assert_eq!(nfa.epsilon_items_count(0x0e), 1);
    assert_eq!(nfa.epsilon_items_get(0x0e, 0), 16);

    // points at epsilon, beginning of literal
    assert_eq!(nfa.transition_find(9, 0), Some((0x13, 0x02)));
    assert_eq!(nfa.epsilon_items_count(0x13), 1);
    assert_eq!(nfa.epsilon_items_get(0x13, 0), 10);

    // connects 'stop' literal
    assert_eq!(nfa.transition_find(10, b's'), Some((11, 0x02)));
    assert_eq!(nfa.transition_find(11, b't'), Some((12, 0x02)));
    assert_eq!(nfa.transition_find(12, b'o'), Some((13, 0x02)));

    // points at epsilon
    assert_eq!(nfa.transition_find(14, 0), Some((0x18, 0)));
    assert_eq!(nfa.epsilon_items_count(0x18), 1);
    assert_eq!(nfa.epsilon_items_get(0x18, 0), 16);

    // points at epsilon
    assert_eq!(nfa.transition_find(15, 0), Some((0x1d, 0)));
    assert_eq!(nfa.epsilon_items_count(0x1d), 2);
    assert_eq!(nfa.epsilon_items_get(0x1d, 0), 2);
    assert_eq!(nfa.epsilon_items_get(0x1d, 1), 9);

    // points at epsilon
    assert_eq!(nfa.transition_find(16, 0), Some((0x23, 0)));
    assert_eq!(nfa.epsilon_items_count(0x23), 1);
    assert_eq!(nfa.epsilon_items_get(0x23, 0), 1);
}

#[test]
fn nfa_built_transitions_leave_their_own_states() {
    let mut allocator = Naive64Pages::new();
    let builder = Builder::new(&mut allocator).unwrap();
    let rpn = RPN::from_bytes(b"l5startl4stop|");

    let nfa = match builder.build(rpn) {
        Some(nfa) => nfa,
        None => return assert!(false),
    };

    let count = nfa.transition_count();
    for idx in 0..count {
        assert_eq!(nfa.transition_at(idx).0, idx);
        assert_eq!(nfa.transition_find_all(idx), Some((idx, idx)));
    }
    assert_eq!(nfa.transition_find_all(count), None);
    assert_eq!(nfa.transition_find(3, b'x'), None);
    assert_eq!(nfa.transition_find(count + 3, 0), None);
}
