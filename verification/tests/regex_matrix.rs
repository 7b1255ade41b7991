use kernelkit::regex::heap::{B4096, B8192};
use kernelkit::regex::matrix::Matrix;
use kernelkit::regex::pages::Naive64Pages;

// rows: 0 accepted values, 1 next states after acceptance, 2 start, 3 after "a", 4 after "ab"
fn repeated_b() -> Matrix {
    let mut table = vec![0u16; 5 * 256];
    table[1] = 4;
    table[2] = 7;
    table[2 + 256] = 4;
    table[2 * 256 + b'a' as usize] = 3;
    table[3 * 256 + b'b' as usize] = 6;
    table[4 * 256 + b'b' as usize] = 6;
    Matrix::at(table)
}

fn single_ab() -> Matrix {
    let mut table = vec![0u16; 4 * 256];
    table[1] = 3;
    table[2] = 9;
    table[2 * 256 + b'a' as usize] = 3;
    table[3 * 256 + b'b' as usize] = 5;
    Matrix::at(table)
}

#[test]
fn regex_matrix_accepts_exact_match() {
    assert_eq!(single_ab().traverse(b"ab\0"), (9, 2));
}

#[test]
fn regex_matrix_stops_after_final_acceptance() {
    assert_eq!(single_ab().traverse(b"abab\0"), (9, 2));
}

#[test]
fn regex_matrix_rejects_prefix_and_mismatch() {
    assert_eq!(single_ab().traverse(b"a\0"), (0, 0));
    assert_eq!(single_ab().traverse(b"xab\0"), (0, 0));
    assert_eq!(single_ab().traverse(b"\0"), (0, 0));
}

#[test]
fn regex_matrix_keeps_longest_acceptance() {
    assert_eq!(repeated_b().traverse(b"abbb\0"), (7, 4));
    assert_eq!(repeated_b().traverse(b"abbbc\0"), (7, 4));
    assert_eq!(repeated_b().traverse(b"ab\0"), (7, 2));
}

// transitions of the automaton of `(st)?op`: source, byte range, target, accepted value
fn stop_transitions() -> Vec<(u16, (u8, u8), u16, u16)> {
    vec![
        (1, (0x6f, 0x6f), 2, 0),
        (1, (0x73, 0x73), 3, 0),
        (2, (0x70, 0x70), 0, 1),
        (3, (0x74, 0x74), 4, 0),
        (4, (0x6f, 0x6f), 5, 0),
        (5, (0x70, 0x70), 0, 1),
    ]
}

// transitions of the automaton of `(start#x)(stop)?#y`
fn start_stop_transitions() -> Vec<(u16, (u8, u8), u16, u16)> {
    vec![
        (1, (0x73, 0x73), 2, 0),
        (2, (0x74, 0x74), 3, 0),
        (3, (0x61, 0x61), 4, 0),
        (4, (0x72, 0x72), 5, 0),
        (5, (0x74, 0x74), 6, 0x78),
        (6, (0x73, 0x73), 7, 0),
        (7, (0x74, 0x74), 8, 0),
        (8, (0x6f, 0x6f), 9, 0),
        (9, (0x70, 0x70), 0, 0x79),
    ]
}

#[test]
fn handles_building_from_regex_with_one_accepting_state() {
    let mut allocator = Naive64Pages::new();
    let heap = match Matrix::build::<B4096>(&mut allocator, &stop_transitions()) {
        Some(heap) => heap,
        None => return assert!(false),
    };

    assert_eq!(heap.get0(0), 7);
    assert_eq!(heap.get0(1), 6);

    let bytes = heap.as_bytes(7 * 256);

    assert_eq!(bytes[2 * 256 + 0x6f], 3);
    assert_eq!(bytes[2 * 256 + 0x73], 4);
    assert_eq!(bytes[3 * 256 + 0x70], 8);
    assert_eq!(bytes[0 * 256 + 2], 1);
    assert_eq!(bytes[1 * 256 + 2], 0);
    assert_eq!(bytes[4 * 256 + 0x74], 5);
    assert_eq!(bytes[5 * 256 + 0x6f], 6);
    assert_eq!(bytes[6 * 256 + 0x70], 9);
    assert_eq!(bytes[0 * 256 + 3], 1);
    assert_eq!(bytes[1 * 256 + 3], 0);
}

#[test]
fn handles_traversing_from_regex_with_one_accepting_state() {
    let mut allocator = Naive64Pages::new();
    let heap = Matrix::build::<B4096>(&mut allocator, &stop_transitions()).unwrap();
    let rows = heap.get0(0) as usize;
    let matrix = Matrix::at(heap.as_bytes(rows * 256));

    assert_eq!(matrix.traverse(b"stop\0"), (1, 4));
    assert_eq!(matrix.traverse(b"op\0"), (1, 2));
    assert_eq!(matrix.traverse(b"top\0"), (0, 0));
    assert_eq!(matrix.traverse(b"start\0"), (0, 0));
}

#[test]
fn handles_building_from_regex_with_two_accepting_states() {
    let mut allocator = Naive64Pages::new();
    let heap = match Matrix::build::<B8192>(&mut allocator, &start_stop_transitions()) {
        Some(heap) => heap,
        None => return assert!(false),
    };

    assert_eq!(heap.get0(0), 11);
    assert_eq!(heap.get0(1), 10);

    let bytes = heap.as_bytes(11 * 256);

    assert_eq!(bytes[2 * 256 + 0x73], 3);
    assert_eq!(bytes[3 * 256 + 0x74], 4);
    assert_eq!(bytes[4 * 256 + 0x61], 5);
    assert_eq!(bytes[5 * 256 + 0x72], 6);
    assert_eq!(bytes[6 * 256 + 0x74], 12);
    assert_eq!(bytes[0 * 256 + 2], 0x78);
    assert_eq!(bytes[1 * 256 + 2], 7);
    assert_eq!(bytes[7 * 256 + 0x73], 8);
    assert_eq!(bytes[8 * 256 + 0x74], 9);
    assert_eq!(bytes[9 * 256 + 0x6f], 10);
    assert_eq!(bytes[10 * 256 + 0x70], 13);
    assert_eq!(bytes[0 * 256 + 3], 0x79);
    assert_eq!(bytes[1 * 256 + 3], 0);
}

#[test]
fn handles_traversing_from_regex_with_two_accepting_states() {
    let mut allocator = Naive64Pages::new();
    let heap = Matrix::build::<B8192>(&mut allocator, &start_stop_transitions()).unwrap();
    let rows = heap.get0(0) as usize;
    let matrix = Matrix::at(heap.as_bytes(rows * 256));

    assert_eq!(matrix.traverse(b"start\0"), (0x78, 5));
    assert_eq!(matrix.traverse(b"startstop\0"), (0x79, 9));
    assert_eq!(matrix.traverse(b"topp\0"), (0, 0));
    assert_eq!(matrix.traverse(b"star\0"), (0, 0));
}
