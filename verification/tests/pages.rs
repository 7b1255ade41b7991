use kernelkit::regex::pages::{AllocatorBytes, Naive64Pages};

#[test]
fn allocates_one_page() {
    let mut allocator = Naive64Pages::new();
    let size = AllocatorBytes::B4096;

    let ptr = allocator.allocate(size);
    let data = 0usize;

    assert_eq!(ptr.unwrap(), data);
}

#[test]
fn allocates_one_page_65_times() {
    let mut allocator = Naive64Pages::new();
    let size = AllocatorBytes::B4096;

    for i in 0..64 {
        let ptr = allocator.allocate(size);
        let data = 0usize;

        assert_eq!(ptr.unwrap(), data + i as usize * 4096);
    }

    let ptr = allocator.allocate(size);
    assert!(ptr.is_none());
}

#[test]
fn allocates_two_pages() {
    let mut allocator = Naive64Pages::new();
    let size = AllocatorBytes::B8192;

    let ptr = allocator.allocate(size);
    let data = 0usize;

    assert_eq!(ptr.unwrap(), data);
}

#[test]
fn allocates_two_pages_33_times() {
    let mut allocator = Naive64Pages::new();
    let size = AllocatorBytes::B8192;

    for i in 0..32 {
        let ptr = allocator.allocate(size);
        let data = 0usize;

        println!("{:08x}", data);
        println!("{:08x}", ptr.unwrap());
        println!("{:08x}", data + i as usize * 8192);

        assert_eq!(ptr.unwrap(), data + i as usize * 8192);
    }

    let ptr = allocator.allocate(size);
    assert!(ptr.is_none());
}

#[test]
fn allocates_two_pages_fragmented_edge() {
    let mut allocator = Naive64Pages::new();

    let b4096 = AllocatorBytes::B4096;
    let b8192 = AllocatorBytes::B8192;

    for _ in 0..63 {
        let _ = allocator.allocate(b4096);
    }

    assert!(allocator.allocate(b8192).is_none());
}

#[test]
fn allocates_two_pages_fragmented_edge_almost() {
    let mut allocator = Naive64Pages::new();

    let b4096 = AllocatorBytes::B4096;
    let b8192 = AllocatorBytes::B8192;

    for _ in 0..62 {
        let _ = allocator.allocate(b4096);
    }

    let ptr = allocator.allocate(b8192);
    let data = 0usize;

    assert_eq!(ptr.unwrap(), data + 62 * 4096);
}

#[test]
fn allocates_four_pages() {
    let mut allocator = Naive64Pages::new();
    let size = AllocatorBytes::B16384;

    let ptr = allocator.allocate(size);
    let data = 0usize;

    assert_eq!(ptr.unwrap(), data);
}

#[test]
fn allocates_four_pages_17_times() {
    let mut allocator = Naive64Pages::new();
    let size = AllocatorBytes::B16384;

    for i in 0..16 {
        let ptr = allocator.allocate(size);
        let data = 0usize;

        assert_eq!(ptr.unwrap(), data + i as usize * 16384);
    }

    let ptr = allocator.allocate(size);
    assert!(ptr.is_none());
}

#[test]
fn allocates_four_pages_fragmented_edge() {
    let mut allocator = Naive64Pages::new();

    let b4096 = AllocatorBytes::B4096;
    let b16384 = AllocatorBytes::B16384;

    for _ in 0..61 {
        let _ = allocator.allocate(b4096);
    }

    assert!(allocator.allocate(b16384).is_none());
}

#[test]
fn allocates_four_pages_fragmented_edge_almost() {
    let mut allocator = Naive64Pages::new();

    let b4096 = AllocatorBytes::B4096;
    let b16384 = AllocatorBytes::B16384;

    for _ in 0..60 {
        let _ = allocator.allocate(b4096);
    }

    let ptr = allocator.allocate(b16384);
    let data = 0usize;

    assert_eq!(ptr.unwrap(), data + 60 * 4096);
}

#[test]
fn allocates_one_page_same_100_times() {
    let mut allocator = Naive64Pages::new();
    let size = AllocatorBytes::B4096;

    let ptr1 = allocator.allocate(size);
    allocator.free(ptr1.unwrap(), size);

    for _ in 0..100 {
        let ptr2 = allocator.allocate(size);
        allocator.free(ptr2.unwrap(), size);

        assert_eq!(ptr1.unwrap(), ptr2.unwrap())
    }
}

#[test]
fn allocates_two_pages_same_100_times() {
    let mut allocator = Naive64Pages::new();
    let size = AllocatorBytes::B8192;

    let ptr1 = allocator.allocate(size);
    allocator.free(ptr1.unwrap(), size);

    for _ in 0..100 {
        let ptr2 = allocator.allocate(size);
        allocator.free(ptr2.unwrap(), size);

        assert_eq!(ptr1.unwrap(), ptr2.unwrap())
    }
}

#[test]
fn allocates_two_pages_fragmented() {
    let mut allocator = Naive64Pages::new();
    let mut ptrs: [Option<usize>; 8] = [None; 8];

    let b4096 = AllocatorBytes::B4096;
    let b8192 = AllocatorBytes::B8192;

    for i in 0..ptrs.len() {
        ptrs[i] = allocator.allocate(b4096);
    }

    for i in 0..ptrs.len() {
        if i % 2 == 1 {
            allocator.free(ptrs[i].unwrap(), b4096);
        }
    }

    let ptr = allocator.allocate(b8192);
    let data = 0usize;

    assert_eq!(ptr.unwrap(), data + 7 * 4096);
}

#[test]
fn allocates_two_pages_fragmented_hole() {
    let mut allocator = Naive64Pages::new();
    let mut ptrs: [Option<usize>; 8] = [None; 8];

    let b4096 = AllocatorBytes::B4096;
    let b8192 = AllocatorBytes::B8192;

    for i in 0..ptrs.len() {
        ptrs[i] = allocator.allocate(b4096);
    }

    for i in 0..ptrs.len() {
        if i == 5 || i == 6 {
            allocator.free(ptrs[i].unwrap(), b4096);
        }
    }

    let ptr = allocator.allocate(b8192);
    let data = 0usize;

    assert_eq!(ptr.unwrap(), data + 5 * 4096);

    let ptr = allocator.allocate(b8192);
    let data = 0usize;

    assert_eq!(ptr.unwrap(), data + 8 * 4096);
}

#[test]
fn allocates_four_pages_same_100_times() {
    let mut allocator = Naive64Pages::new();
    let size = AllocatorBytes::B16384;

    let ptr1 = allocator.allocate(size);
    allocator.free(ptr1.unwrap(), size);

    for _ in 0..100 {
        let ptr2 = allocator.allocate(size);
        allocator.free(ptr2.unwrap(), size);

        assert_eq!(ptr1.unwrap(), ptr2.unwrap())
    }
}

#[test]
fn allocates_four_pages_fragmented() {
    let mut allocator = Naive64Pages::new();
    let mut ptrs: [Option<usize>; 8] = [None; 8];

    let b4096 = AllocatorBytes::B4096;
    let b16384 = AllocatorBytes::B16384;

    for i in 0..ptrs.len() {
        ptrs[i] = allocator.allocate(b4096);
    }

    for i in 0..ptrs.len() {
        if i % 2 == 1 {
            allocator.free(ptrs[i].unwrap(), b4096);
        }
    }

    let ptr = allocator.allocate(b16384);
    let data = 0usize;

    assert_eq!(ptr.unwrap(), data + 7 * 4096);
}

#[test]
fn allocates_four_pages_fragmented_hole() {
    let mut allocator = Naive64Pages::new();
    let mut ptrs: [Option<usize>; 8] = [None; 8];

    let b4096 = AllocatorBytes::B4096;
    let b16384 = AllocatorBytes::B16384;

    for i in 0..ptrs.len() {
        ptrs[i] = allocator.allocate(b4096);
    }

    for i in 0..ptrs.len() {
        if i == 3 || i == 4 || i == 5 || i == 6 {
            allocator.free(ptrs[i].unwrap(), b4096);
        }
    }

    let ptr = allocator.allocate(b16384);
    let data = 0usize;

    assert_eq!(ptr.unwrap(), data + 3 * 4096);

    let ptr = allocator.allocate(b16384);
    let data = 0usize;

    assert_eq!(ptr.unwrap(), data + 8 * 4096);
}
