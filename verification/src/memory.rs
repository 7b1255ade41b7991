use vstd::prelude::*;

verus! {

/// Copies the first `length` bytes of `src` over those of `dst`: sixteen bytes at a time, then
/// four, then one.
pub fn memcpy_unsafe(src: &[u8], dst: &mut Vec<u8>, length: usize)
    requires
        length <= src@.len(),
        length <= old(dst)@.len(),
    ensures
        final(dst)@.len() == old(dst)@.len(),
        final(dst)@ == src@.subrange(0, length as int) + old(dst)@.subrange(length as int, old(dst)@.len() as int),
{
    let mut i: usize = 0;
    let size: usize = 16;
    while size <= length - i
        invariant
            i <= length <= src@.len(),
            length <= dst@.len(),
            dst@.len() == old(dst)@.len(),
            size == 16,
            forall|k: int| 0 <= k < i ==> dst@[k] == src@[k],
            forall|k: int| length <= k < dst@.len() ==> dst@[k] == old(dst)@[k],
        decreases length - i,
    {
        copy_bytes(src, dst, i, size);
        i = i + size;
    }
    while i < length && length - i >= 4
        invariant
            i <= length <= src@.len(),
            length - i < 16,
            length <= dst@.len(),
            dst@.len() == old(dst)@.len(),
            forall|k: int| 0 <= k < i ==> dst@[k] == src@[k],
            forall|k: int| length <= k < dst@.len() ==> dst@[k] == old(dst)@[k],
        decreases length - i,
    {
        copy_bytes(src, dst, i, 4);
        i = i + 4;
    }
    while i < length && length - i < 16
        invariant
            i <= length <= src@.len(),
            length - i < 16,
            length <= dst@.len(),
            dst@.len() == old(dst)@.len(),
            forall|k: int| 0 <= k < i ==> dst@[k] == src@[k],
            forall|k: int| length <= k < dst@.len() ==> dst@[k] == old(dst)@[k],
        decreases length - i,
    {
        dst.set(i, src[i]);
        i = i + 1;
    }
    proof {
        assert(i == length);
        assert(dst@ =~= src@.subrange(0, length as int) + old(dst)@.subrange(length as int, old(dst)@.len() as int));
    }
}

/// Copies `count` bytes from offset `at`.
fn copy_bytes(src: &[u8], dst: &mut Vec<u8>, at: usize, count: usize)
    requires
        at + count <= src@.len(),
        at + count <= old(dst)@.len(),
    ensures
        final(dst)@.len() == old(dst)@.len(),
        forall|k: int| at <= k < at + count ==> final(dst)@[k] == src@[k],
        forall|k: int| 0 <= k < final(dst)@.len() && !(at <= k < at + count) ==> final(dst)@[k] == old(dst)@[k],
{
    assert(src@.len() == src.len());
    let mut j: usize = 0;
    while j < count
        invariant
            j <= count,
            at + count <= src@.len() <= usize::MAX,
            at + count <= dst@.len(),
            dst@.len() == old(dst)@.len(),
            forall|k: int| at <= k < at + j ==> dst@[k] == src@[k],
            forall|k: int| 0 <= k < dst@.len() && !(at <= k < at + j) ==> dst@[k] == old(dst)@[k],
        decreases count - j,
    {
        dst.set(at + j, src[at + j]);
        j = j + 1;
    }
}

/// Copies the first `length` bytes of `src` over those of `dst`, one at a time.
pub fn memcpy_unsafe_overlapped(src: &[u8], dst: &mut Vec<u8>, length: usize)
    requires
        length <= src@.len(),
        length <= old(dst)@.len(),
    ensures
        final(dst)@ == src@.subrange(0, length as int) + old(dst)@.subrange(length as int, old(dst)@.len() as int),
{
    let mut i: usize = 0;
    while i < length
        invariant
            i <= length <= src@.len(),
            length <= dst@.len(),
            dst@.len() == old(dst)@.len(),
            forall|k: int| 0 <= k < i ==> dst@[k] == src@[k],
            forall|k: int| i <= k < dst@.len() ==> dst@[k] == old(dst)@[k],
        decreases length - i,
    {
        dst.set(i, src[i]);
        i = i + 1;
    }
    proof {
        assert(dst@ =~= src@.subrange(0, length as int) + old(dst)@.subrange(length as int, old(dst)@.len() as int));
    }
}

} // verus!
