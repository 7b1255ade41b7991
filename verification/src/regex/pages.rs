use vstd::prelude::*;

verus! {

/// The sizes of the blocks that an allocator hands out.
#[derive(Clone, Copy, PartialEq, Eq, Structural, Debug)]
pub enum AllocatorBytes {
    B4096,
    B8192,
    B16384,
}

/// Number of bytes in one page of the page allocator.
pub const PAGE_BYTES: usize = 4096;

/// Number of pages that a `Naive64Pages` allocator manages.
pub const PAGE_COUNT: usize = 64;

impl AllocatorBytes {
    pub open spec fn spec_bytes(self) -> nat {
        match self {
            AllocatorBytes::B4096 => 4096,
            AllocatorBytes::B8192 => 8192,
            AllocatorBytes::B16384 => 16384,
        }
    }

    /// Number of consecutive pages that a block of this size spans.
    pub open spec fn spec_pages(self) -> nat {
        match self {
            AllocatorBytes::B4096 => 1,
            AllocatorBytes::B8192 => 2,
            AllocatorBytes::B16384 => 4,
        }
    }

    pub fn bytes(&self) -> (r: usize)
        ensures
            r == self.spec_bytes(),
    {
        match self {
            AllocatorBytes::B4096 => 4096,
            AllocatorBytes::B8192 => 8192,
            AllocatorBytes::B16384 => 16384,
        }
    }

    pub fn pages(&self) -> (r: u32)
        ensures
            r == self.spec_pages(),
    {
        match self {
            AllocatorBytes::B4096 => 1,
            AllocatorBytes::B8192 => 2,
            AllocatorBytes::B16384 => 4,
        }
    }
}

/// Something that hands out and takes back blocks of pages, identified by their byte offset.
pub trait Allocator {
    fn allocate(&mut self, size: AllocatorBytes) -> Option<usize>;

    fn free(&mut self, ptr: usize, size: AllocatorBytes);
}

/// A bitmap page allocator over 64 pages of 4096 bytes: a set bit marks a free page.
pub struct Naive64Pages {
    bitmap: u64,
}

/// Whether page `i` is free in `bitmap`.
pub open spec fn page_free(bitmap: u64, i: int) -> bool {
    0 <= i < 64 && (bitmap >> (i as u64)) & 1 == 1
}

/// Whether pages `i .. i + n` are all free in `bitmap`.
pub open spec fn run_free(bitmap: u64, i: int, n: int) -> bool {
    forall|j: int| i <= j < i + n ==> page_free(bitmap, j)
}

/// Whether `i` is the lowest page at which a run of `n` free pages starts.
pub open spec fn first_run(bitmap: u64, i: int, n: int) -> bool {
    &&& 0 <= i <= 64 - n
    &&& run_free(bitmap, i, n)
    &&& forall|k: int| 0 <= k < i ==> !run_free(bitmap, k, n)
}

/// Whether a run of `n` free pages starts anywhere in `bitmap`.
pub open spec fn has_room(bitmap: u64, n: int) -> bool {
    exists|k: int| 0 <= k <= 64 - n && #[trigger] run_free(bitmap, k, n)
}

/// Whether `after` is `before` with its lowest run of `n` free pages taken.
pub open spec fn took_first_run(before: u64, after: u64, n: int) -> bool {
    exists|i: int| #[trigger] first_run(before, i, n) && after == taken(before, i, n)
}

/// The bitmap with pages `i .. i + n` marked as used.
pub open spec fn taken(bitmap: u64, i: int, n: int) -> u64 {
    bitmap & !(run_mask(n) << (i as u64))
}

/// The bitmap with pages `i .. i + n` marked as free.
pub open spec fn given_back(bitmap: u64, i: int, n: int) -> u64 {
    bitmap | (run_mask(n) << (i as u64))
}

/// The mask of `n` low bits, for the run lengths that the allocator uses.
pub open spec fn run_mask(n: int) -> u64 {
    if n == 1 {
        1
    } else if n == 2 {
        3
    } else {
        15
    }
}

/// Freeing the block that an allocation just took, at its byte offset, gives the allocator back
/// the bitmap it had.
pub proof fn lemma_free_after_allocate(bitmap: u64, i: int, size: AllocatorBytes)
    requires
        first_run(bitmap, i, size.spec_pages() as int),
    ensures
        given_back(
            taken(bitmap, i, size.spec_pages() as int),
            ((i * 4096) / 4096) % 64,
            size.spec_pages() as int,
        ) == bitmap,
{
    let n = size.spec_pages();
    assert(((i * 4096) / 4096) % 64 == i);
    let s: u64 = i as u64;
    lemma_run_check(bitmap, s, n as u64);
    let m = run_mask(n as int);
    assert((bitmap >> s) & m == m ==> (bitmap & !(m << s)) | (m << s) == bitmap) by (bit_vector);
}

proof fn lemma_run_check(bitmap: u64, i: u64, n: u64)
    requires
        i < 64,
        n == 1 || n == 2 || n == 4,
        i + n <= 64,
    ensures
        ((bitmap >> i) & run_mask(n as int) == run_mask(n as int)) == run_free(bitmap, i as int, n as int),
{
    if n == 1 {
        if (bitmap >> i) & 1u64 == 1u64 {
            assert forall|j: int| i <= j < i + n implies page_free(bitmap, j) by {
                assert(j == i);
            }
        } else {
            assert(!page_free(bitmap, i as int));
        }
    } else if n == 2 {
        let i1: u64 = (i + 1) as u64;
        assert(((bitmap >> i) & 3u64 == 3u64) == ((bitmap >> i) & 1 == 1 && (bitmap >> i1) & 1 == 1))
            by (bit_vector)
            requires
                i < 63,
                i1 == i + 1,
        ;
        if (bitmap >> i) & 3u64 == 3u64 {
            assert forall|j: int| i <= j < i + n implies page_free(bitmap, j) by {
                if j == i {
                } else {
                    assert(j == i1);
                }
            }
        } else {
            assert(!page_free(bitmap, i as int) || !page_free(bitmap, i1 as int));
        }
    } else {
        let i1: u64 = (i + 1) as u64;
        let i2: u64 = (i + 2) as u64;
        let i3: u64 = (i + 3) as u64;
        assert(((bitmap >> i) & 15u64 == 15u64) == ((bitmap >> i) & 1 == 1 && (bitmap >> i1) & 1 == 1 && (
        bitmap >> i2) & 1 == 1 && (bitmap >> i3) & 1 == 1)) by (bit_vector)
            requires
                i < 61,
                i1 == i + 1,
                i2 == i + 2,
                i3 == i + 3,
        ;
        if (bitmap >> i) & 15u64 == 15u64 {
            assert forall|j: int| i <= j < i + n implies page_free(bitmap, j) by {
                if j == i {
                } else if j == i1 {
                } else if j == i2 {
                } else {
                    assert(j == i3);
                }
            }
        } else {
            assert(!page_free(bitmap, i as int) || !page_free(bitmap, i1 as int) || !page_free(
                bitmap,
                i2 as int,
            ) || !page_free(bitmap, i3 as int));
        }
    }
}

impl Naive64Pages {
    /// The bitmap of free pages.
    pub closed spec fn spec_bitmap(&self) -> u64 {
        self.bitmap
    }

    /// A fresh allocator: all 64 pages are free.
    pub fn new() -> (r: Self)
        ensures
            r.spec_bitmap() == 0xffff_ffff_ffff_ffffu64,
    {
        Naive64Pages { bitmap: 0xffff_ffff_ffff_ffff }
    }

    pub fn bitmap(&self) -> (r: u64)
        ensures
            r == self.spec_bitmap(),
    {
        self.bitmap
    }

    /// Finds the lowest run of `n` free pages, if any.
    fn find_run(&self, n: u64) -> (r: Option<u64>)
        requires
            n == 1 || n == 2 || n == 4,
        ensures
            match r {
                Some(i) => first_run(self.spec_bitmap(), i as int, n as int),
                None => forall|k: int| 0 <= k <= 64 - n ==> !run_free(self.spec_bitmap(), k, n as int),
            },
    {
        let mask: u64 = if n == 1 {
            1
        } else if n == 2 {
            3
        } else {
            15
        };
        let last: u64 = 64 - n;
        let mut i: u64 = 0;
        while i <= last
            invariant
                n == 1 || n == 2 || n == 4,
                last == 64 - n,
                mask == run_mask(n as int),
                i <= last + 1,
                forall|k: int| 0 <= k < i ==> !run_free(self.spec_bitmap(), k, n as int),
            decreases last + 1 - i,
        {
            proof {
                lemma_run_check(self.bitmap, i, n);
            }
            if (self.bitmap >> i) & mask == mask {
                return Some(i);
            }
            i = i + 1;
        }
        None
    }

    /// Takes the lowest run of free pages that fits `size`, marking it used, and returns its byte offset.
    pub fn allocate(&mut self, size: AllocatorBytes) -> (r: Option<usize>)
        ensures
            match r {
                Some(off) => exists|i: int|
                    {
                        &&& first_run(old(self).spec_bitmap(), i, size.spec_pages() as int)
                        &&& off == i * 4096
                        &&& final(self).spec_bitmap() == taken(
                            old(self).spec_bitmap(),
                            i,
                            size.spec_pages() as int,
                        )
                    },
                None => {
                    &&& final(self).spec_bitmap() == old(self).spec_bitmap()
                    &&& forall|k: int|
                        0 <= k <= 64 - size.spec_pages() ==> !run_free(
                            old(self).spec_bitmap(),
                            k,
                            size.spec_pages() as int,
                        )
                },
            },
    {
        let n = size.pages() as u64;
        match self.find_run(n) {
            None => None,
            Some(i) => {
                let mask: u64 = if n == 1 {
                    1
                } else if n == 2 {
                    3
                } else {
                    15
                };
                self.bitmap = self.bitmap & !(mask << i);
                Some(i as usize * 4096)
            },
        }
    }

    /// Marks the pages of the block at byte offset `ptr` free again; the page number is taken
    /// modulo 64, as a shift of the 64-bit bitmap would.
    pub fn free(&mut self, ptr: usize, size: AllocatorBytes)
        ensures
            final(self).spec_bitmap() == given_back(
                old(self).spec_bitmap(),
                ((ptr / 4096) % 64) as int,
                size.spec_pages() as int,
            ),
    {
        let n = size.pages();
        let mask: u64 = if n == 1 {
            1
        } else if n == 2 {
            3
        } else {
            15
        };
        let page = ((ptr / 4096) % 64) as u64;
        self.bitmap = self.bitmap | (mask << page);
    }
}

impl Allocator for Naive64Pages {
    /// Takes the lowest run of free pages that fits `size`, as the inherent `allocate` does.
    fn allocate(&mut self, size: AllocatorBytes) -> (r: Option<usize>)
        ensures
            match r {
                Some(off) => exists|i: int|
                    {
                        &&& first_run(old(self).spec_bitmap(), i, size.spec_pages() as int)
                        &&& off == i * 4096
                        &&& final(self).spec_bitmap() == taken(
                            old(self).spec_bitmap(),
                            i,
                            size.spec_pages() as int,
                        )
                    },
                None => {
                    &&& final(self).spec_bitmap() == old(self).spec_bitmap()
                    &&& forall|k: int|
                        0 <= k <= 64 - size.spec_pages() ==> !run_free(
                            old(self).spec_bitmap(),
                            k,
                            size.spec_pages() as int,
                        )
                },
            },
    {
        Naive64Pages::allocate(self, size)
    }

    /// Marks the pages of the block at byte offset `ptr` free again, as the inherent `free` does.
    fn free(&mut self, ptr: usize, size: AllocatorBytes)
        ensures
            final(self).spec_bitmap() == given_back(
                old(self).spec_bitmap(),
                ((ptr / 4096) % 64) as int,
                size.spec_pages() as int,
            ),
    {
        Naive64Pages::free(self, ptr, size)
    }
}

} // verus!
