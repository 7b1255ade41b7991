use vstd::prelude::*;
use std::marker::PhantomData;

use super::heap::{AllocatorSize, Guard, Heap, Word};
use super::pages::{has_room, took_first_run, Naive64Pages};

verus! {

/// Marks an array that may be read and written at any offset.
pub trait ArrayLike {}

/// Marks an array used as two stacks: one growing up from the start, one growing down from the
/// end.
pub trait StackLike {}

/// A heap of words used as an array or as a pair of stacks. `head` is the size of the front stack;
/// `tail` is the offset of the next free word of the back stack.
pub struct Array<LIKE, T, SIZE, GUARD> {
    heap: Heap<T, SIZE, GUARD>,
    like: PhantomData<LIKE>,
    head: u16,
    tail: u16,
}

impl<LIKE, T: Word, SIZE: AllocatorSize, GUARD: Guard> Array<LIKE, T, SIZE, GUARD> {
    pub closed spec fn heap(&self) -> Heap<T, SIZE, GUARD> {
        self.heap
    }

    pub closed spec fn spec_head(&self) -> nat {
        self.head as nat
    }

    pub closed spec fn spec_tail(&self) -> nat {
        self.tail as nat
    }

    pub open spec fn wf(&self) -> bool {
        self.heap().wf() && self.spec_tail() < self.heap().cap()
    }

    /// The words of the front stack, bottom first.
    pub open spec fn front(&self) -> Seq<T> {
        Seq::new(self.spec_head(), |i: int| self.heap().at(i))
    }

    /// The words of the back stack, bottom first.
    pub open spec fn back(&self) -> Seq<T> {
        Seq::new(
            (self.heap().cap() - 1 - self.spec_tail()) as nat,
            |i: int| self.heap().at(self.heap().cap() - 1 - i),
        )
    }

    /// An array over a fresh heap: both stacks empty.
    pub fn new(allocator: &mut Naive64Pages) -> (r: Option<Self>)
        ensures
            r is Some <==> has_room(old(allocator).spec_bitmap(), (SIZE::spec_measure() / 4096) as int),
            r is Some ==> took_first_run(
                old(allocator).spec_bitmap(),
                final(allocator).spec_bitmap(),
                (SIZE::spec_measure() / 4096) as int,
            ),
            match r {
                Some(a) => {
                    &&& a.wf()
                    &&& a.spec_head() == 0
                    &&& a.spec_tail() + 1 == a.heap().cap()
                    &&& a.heap().cap() == SIZE::spec_measure() / T::spec_width()
                    &&& a.heap()@ == Seq::new(a.heap().cap(), |i: int| T::spec_zero())
                },
                None => final(allocator).spec_bitmap() == old(allocator).spec_bitmap(),
            },
    {
        let heap: Heap<T, SIZE, GUARD> = match Heap::allocate(allocator) {
            None => return None,
            Some(heap) => heap,
        };
        let tail = (heap.capacity() - 1) as u16;
        Some(Array { heap, like: PhantomData, head: 0, tail })
    }
}

impl<LIKE: StackLike, T: Word, SIZE: AllocatorSize, GUARD: Guard> Array<LIKE, T, SIZE, GUARD> {
    pub fn stack_push_front(&mut self, val: T)
        requires
            old(self).wf(),
            old(self).spec_head() < u16::MAX,
            old(self).heap().reaches(old(self).spec_head() as int),
        ensures
            final(self).wf(),
            final(self).heap()@ == old(self).heap().spec_put(old(self).spec_head() as int, val),
            final(self).heap().cap() == old(self).heap().cap(),
            final(self).heap().is_wrapping() == old(self).heap().is_wrapping(),
            final(self).spec_head() == old(self).spec_head() + 1,
            final(self).spec_tail() == old(self).spec_tail(),
            old(self).spec_head() < old(self).heap().cap() ==> final(self).front() == old(self).front().push(val),
    {
        self.heap.set0(val, self.head as usize);
        self.head = self.head + 1;
        proof {
            old(self).heap().lemma_slots_small();
            self.heap().lemma_slots_small();
            if old(self).spec_head() < old(self).heap().cap() {
                assert forall|i: int| 0 <= i < self.front().len() implies self.front()[i] == old(self).front().push(val)[i] by {
                    assert(self.heap().slot(i) == i);
                    assert(old(self).heap().slot(i) == i);
                    assert(self.heap().slot(old(self).spec_head() as int) == old(self).spec_head());
                }
                assert(self.front() =~= old(self).front().push(val));
            }
        }
    }

    pub fn stack_push_back(&mut self, val: T)
        requires
            old(self).wf(),
            old(self).spec_tail() > 0,
        ensures
            final(self).wf(),
            final(self).heap()@ == old(self).heap().spec_put(old(self).spec_tail() as int, val),
            final(self).heap().cap() == old(self).heap().cap(),
            final(self).heap().is_wrapping() == old(self).heap().is_wrapping(),
            final(self).spec_head() == old(self).spec_head(),
            final(self).spec_tail() + 1 == old(self).spec_tail(),
            final(self).back() == old(self).back().push(val),
    {
        self.heap.set0(val, self.tail as usize);
        self.tail = self.tail - 1;
        proof {
            old(self).heap().lemma_slots_small();
            if old(self).spec_tail() < old(self).heap().cap() {
                assert(self.back() =~= old(self).back().push(val));
            }
        }
    }

    pub fn stack_pop_front(&mut self) -> (r: T)
        requires
            old(self).wf(),
            old(self).spec_head() > 0,
            old(self).heap().reaches(old(self).spec_head() - 1),
        ensures
            final(self).heap() == old(self).heap(),
            final(self).spec_head() + 1 == old(self).spec_head(),
            final(self).spec_tail() == old(self).spec_tail(),
            r == old(self).heap().at(old(self).spec_head() - 1),
            r == old(self).front().last(),
            final(self).front() == old(self).front().drop_last(),
    {
        self.head = self.head - 1;
        let r = self.heap.get0(self.head as usize);
        proof {
            assert(self.front() =~= old(self).front().drop_last());
        }
        r
    }

    pub fn stack_pop_back(&mut self) -> (r: T)
        requires
            old(self).wf(),
            old(self).spec_tail() + 1 < old(self).heap().cap(),
        ensures
            final(self).heap() == old(self).heap(),
            final(self).spec_head() == old(self).spec_head(),
            final(self).spec_tail() == old(self).spec_tail() + 1,
            r == old(self).heap().at(old(self).spec_tail() + 1int),
            r == old(self).back().last(),
            final(self).back() == old(self).back().drop_last(),
    {
        self.tail = self.tail + 1;
        let r = self.heap.get0(self.tail as usize);
        proof {
            assert(self.back() =~= old(self).back().drop_last());
        }
        r
    }

    pub fn stack_size_front(&self) -> (r: u16)
        ensures
            r == self.spec_head(),
    {
        self.head
    }

    /// The capacity minus the tail offset: one more than the back stack holds.
    pub fn stack_size_back(&self) -> (r: u16)
        requires
            self.wf(),
        ensures
            r == self.heap().cap() - self.spec_tail(),
    {
        (self.heap.capacity() - self.tail as usize) as u16
    }

    pub fn stack_peek_front(&self) -> (r: T)
        requires
            self.wf(),
            self.spec_head() > 0,
            self.heap().reaches(self.spec_head() - 1),
        ensures
            r == self.heap().at(self.spec_head() - 1),
            r == self.front().last(),
    {
        self.heap.get0((self.head - 1) as usize)
    }

    pub fn stack_peek_back(&self) -> (r: T)
        requires
            self.wf(),
            self.spec_tail() + 1 < self.heap().cap(),
        ensures
            r == self.heap().at(self.spec_tail() + 1int),
            r == self.back().last(),
    {
        self.heap.get0((self.tail + 1) as usize)
    }

    /// A copy of the first words of the heap, as many as the front stack holds.
    pub fn as_bytes_front(&self) -> (r: Vec<T>)
        requires
            self.wf(),
            self.spec_head() <= self.heap().cap(),
        ensures
            r@ == self.heap()@.subrange(0, self.spec_head() as int),
            !self.heap().is_wrapping() ==> r@ == self.front(),
    {
        let r = self.heap.as_bytes(self.head as usize);
        proof {
            self.heap().lemma_slots_small();
            if !self.heap().is_wrapping() {
                assert(r@ =~= self.front());
            }
        }
        r
    }

    /// A copy of the first words of the heap, as many as `stack_size_back` counts.
    pub fn as_bytes_back(&self) -> (r: Vec<T>)
        requires
            self.wf(),
        ensures
            r@ == self.heap()@.subrange(0, self.heap().cap() - self.spec_tail()),
    {
        self.heap.as_bytes(self.stack_size_back() as usize)
    }
}

impl<LIKE: ArrayLike, T: Word, SIZE: AllocatorSize, GUARD: Guard> Array<LIKE, T, SIZE, GUARD> {
    pub fn array_get(&self, off: u16) -> (r: T)
        requires
            self.wf(),
            self.heap().reaches(off as int),
        ensures
            r == self.heap().at(off as int),
    {
        self.heap.get0(off as usize)
    }

    pub fn array_set(&mut self, off: u16, val: T)
        requires
            old(self).wf(),
            old(self).heap().reaches(off as int),
        ensures
            final(self).wf(),
            final(self).heap()@ == old(self).heap().spec_put(off as int, val),
            final(self).heap().cap() == old(self).heap().cap(),
            final(self).heap().is_wrapping() == old(self).heap().is_wrapping(),
            final(self).spec_head() == old(self).spec_head(),
            final(self).spec_tail() == old(self).spec_tail(),
    {
        self.heap.set0(val, off as usize);
    }
}

} // verus!
