use kernelkit::regex::heap::{GuardSegfault, Heap, B4096};
use kernelkit::regex::pages::Naive64Pages;

#[test]
fn regex_heap_lists_words_in_hex() {
    let mut allocator = Naive64Pages::new();
    let mut heap = Heap::<u16, B4096, GuardSegfault>::allocate(&mut allocator).unwrap();

    heap.set0(0x1, 0);
    heap.set0(0xab, 1);
    heap.set0(0x1234, 2);
    heap.set0(0x10, 3);

    assert_eq!(heap.as_string(0), "[]");
    assert_eq!(heap.as_string(1), "[0x01]");
    assert_eq!(heap.as_string(5), "[0x01, 0xab, 0x1234, 0x10, 0x00]");
}
