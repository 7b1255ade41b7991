use vstd::prelude::*;

verus! {

/// A read-only run of bytes: its address and length.
pub struct MemorySlice {
    pub ptr: usize,
    pub len: usize,
}

/// A mapped block of memory: its address and length.
pub struct MemoryAddress {
    pub ptr: usize,
    pub len: usize,
}

/// What slicing a block gave.
pub enum MemorySlicing {
    Succeeded(MemorySlice),
    InvalidParameters(),
    OutOfRange(),
}

impl MemoryAddress {
    /// The bytes of the block from `start` up to `end`, exclusive.
    pub fn between(&self, start: usize, end: usize) -> (r: MemorySlicing)
        requires
            self.ptr + self.len <= usize::MAX,
        ensures
            r == if start > self.len || end > self.len {
                MemorySlicing::OutOfRange()
            } else if start > end {
                MemorySlicing::InvalidParameters()
            } else {
                MemorySlicing::Succeeded(MemorySlice { ptr: (self.ptr + start) as usize, len: (end - start) as usize })
            },
    {
        if start > self.len || end > self.len {
            return MemorySlicing::OutOfRange();
        }
        if start > end {
            return MemorySlicing::InvalidParameters();
        }
        MemorySlicing::Succeeded(MemorySlice { ptr: self.ptr + start, len: end - start })
    }
}

/// What mapping memory gave.
pub enum MemoryAllocation {
    Succeeded(MemoryAddress),
    Failed(isize),
}

/// What unmapping memory gave.
pub enum MemoryDeallocation {
    Succeeded(),
    Failed(isize),
}

/// The outcome of mapping `length` bytes, given what the mapping call returned: an address when
/// it is positive, the failure otherwise.
pub fn allocation_outcome(value: isize, length: usize) -> (r: MemoryAllocation)
    ensures
        r == if value <= 0 {
            MemoryAllocation::Failed(value)
        } else {
            MemoryAllocation::Succeeded(MemoryAddress { ptr: value as usize, len: length })
        },
{
    if value <= 0 {
        MemoryAllocation::Failed(value)
    } else {
        MemoryAllocation::Succeeded(MemoryAddress { ptr: value as usize, len: length })
    }
}

/// The outcome of unmapping, given what the unmapping call returned: success on 0.
pub fn deallocation_outcome(value: isize) -> (r: MemoryDeallocation)
    ensures
        r == if value == 0 {
            MemoryDeallocation::Succeeded()
        } else {
            MemoryDeallocation::Failed(value)
        },
{
    if value == 0 {
        MemoryDeallocation::Succeeded()
    } else {
        MemoryDeallocation::Failed(value)
    }
}

} // verus!
