use vstd::prelude::*;

use super::heap::{AllocatorSize, Guard, Heap};
use super::pages::{has_room, took_first_run, Naive64Pages};
use super::words::{distinct, distinct_words, sort_words, sorted};

verus! {

/// Lists of 16-bit words kept in one heap. A list at offset `idx` has a four-word header,
/// `[count, prev, next, hash]`, followed by its `count` items; the lists are linked in a ring.
/// The same layout holds hash sets of lists, whose `hash` word links to the next, larger set.
pub struct Collection<SIZE, GUARD> {
    heap: Heap<u16, SIZE, GUARD>,
    count: u16,
    head: u16,
    tail: u16,
}

impl<SIZE: AllocatorSize, GUARD: Guard> Collection<SIZE, GUARD> {
    pub closed spec fn heap(&self) -> Heap<u16, SIZE, GUARD> {
        self.heap
    }

    pub closed spec fn spec_count(&self) -> int {
        self.count as int
    }

    pub closed spec fn spec_head(&self) -> int {
        self.head as int
    }

    pub closed spec fn spec_tail(&self) -> int {
        self.tail as int
    }

    pub open spec fn wf(&self) -> bool {
        self.heap().wf()
    }

    /// The word at offset `k`.
    pub open spec fn at(&self, k: int) -> u16 {
        self.heap().at(k)
    }

    /// The slot of offset `k`.
    pub open spec fn w(&self, k: int) -> int {
        self.heap().slot(k)
    }

    /// Whether offset `k` may be used.
    pub open spec fn ok(&self, k: int) -> bool {
        self.heap().reaches(k)
    }

    /// The words of the heap.
    pub open spec fn words(&self) -> Seq<u16> {
        self.heap()@
    }

    /// The `n` words that follow the header of the list at `idx`.
    pub open spec fn region(&self, idx: int, n: int) -> Seq<u16> {
        Seq::new(n as nat, |j: int| self.at(idx + 4 + j))
    }

    /// The items of the list at `idx`.
    pub open spec fn items(&self, idx: int) -> Seq<u16> {
        self.region(idx, self.at(idx) as int)
    }

    /// Whether a list at `idx` with `n` items lies in distinct slots of the heap.
    pub open spec fn fits(&self, idx: int, n: int) -> bool {
        &&& 0 <= idx
        &&& 0 <= n
        &&& idx + 4 + n <= u16::MAX + 1
        &&& if self.heap().is_wrapping() {
            n + 4 <= self.heap().cap()
        } else {
            idx + 4 + n <= self.heap().cap()
        }
    }

    /// The other fields are those of `old`.
    pub open spec fn same_fields(&self, old: &Self) -> bool {
        &&& self.spec_count() == old.spec_count()
        &&& self.spec_head() == old.spec_head()
        &&& self.spec_tail() == old.spec_tail()
        &&& self.heap().cap() == old.heap().cap()
        &&& self.heap().is_wrapping() == old.heap().is_wrapping()
        &&& self.wf()
    }

    proof fn lemma_fits(&self, idx: int, n: int)
        requires
            self.wf(),
            self.fits(idx, n),
        ensures
            forall|k: int| idx <= k < idx + 4 + n ==> #[trigger] self.ok(k),
            forall|a: int, b: int|
                idx <= a < idx + 4 + n && idx <= b < idx + 4 + n && a != b ==> #[trigger] self.w(a)
                    != #[trigger] self.w(b),
    {
        assert forall|a: int, b: int|
            idx <= a < idx + 4 + n && idx <= b < idx + 4 + n && a != b implies #[trigger] self.w(a)
            != #[trigger] self.w(b) by {
            self.heap().lemma_slot_injective(a, b);
        }
    }

    /// A collection over a fresh heap, with no lists.
    pub fn new(allocator: &mut Naive64Pages) -> (r: Option<Self>)
        ensures
            r is Some <==> has_room(old(allocator).spec_bitmap(), (SIZE::spec_measure() / 4096) as int),
            r is Some ==> took_first_run(
                old(allocator).spec_bitmap(),
                final(allocator).spec_bitmap(),
                (SIZE::spec_measure() / 4096) as int,
            ),
            match r {
                Some(c) => {
                    &&& c.wf()
                    &&& c.spec_count() == 0
                    &&& c.spec_head() == 0
                    &&& c.spec_tail() == 0
                    &&& c.heap().cap() == SIZE::spec_measure() / 2
                    &&& c.words() == Seq::new(c.heap().cap(), |i: int| 0u16)
                },
                None => final(allocator).spec_bitmap() == old(allocator).spec_bitmap(),
            },
    {
        let heap: Heap<u16, SIZE, GUARD> = match Heap::allocate(allocator) {
            None => return None,
            Some(heap) => heap,
        };
        Some(Collection { heap, count: 0, head: 0, tail: 0 })
    }

    pub fn list_count(&self) -> (r: u16)
        ensures
            r == self.spec_count(),
    {
        self.count
    }

    /// Appends an empty list after the head list and makes it the head; returns its offset.
    pub fn list_push_head(&mut self) -> (r: u16)
        requires
            old(self).wf(),
            old(self).spec_count() < u16::MAX,
            old(self).spec_count() > 0 ==> old(self).ok(old(self).spec_head()),
            old(self).spec_count() > 0 ==> old(self).spec_head() + old(self).at(old(self).spec_head()) + 4
                <= u16::MAX,
            ({
                let nh = old(self).pushed_head();
                &&& old(self).ok(nh)
                &&& old(self).ok(nh + 3)
                &&& old(self).ok(old(self).spec_head() + 2)
                &&& old(self).ok(old(self).spec_tail() + 1)
            }),
        ensures
            ({
                let nh = old(self).pushed_head();
                let h0 = old(self).spec_head();
                let t = old(self).spec_tail();
                &&& r == nh
                &&& final(self).spec_head() == nh
                &&& final(self).spec_tail() == t
                &&& final(self).spec_count() == old(self).spec_count() + 1
                &&& final(self).wf()
                &&& final(self).heap().cap() == old(self).heap().cap()
                &&& final(self).heap().is_wrapping() == old(self).heap().is_wrapping()
                &&& final(self).words() == old(self).words().update(old(self).w(nh), 0u16).update(
                    old(self).w(nh + 3),
                    0u16,
                ).update(old(self).w(nh + 1), h0 as u16).update(old(self).w(nh + 2), t as u16).update(
                    old(self).w(h0 + 2),
                    nh as u16,
                ).update(old(self).w(t + 1), nh as u16)
            }),
    {
        let head = self.head;
        if self.count > 0 {
            let off = self.heap.get0(self.head as usize);
            self.head = self.heap.guard0((self.head + off + 4) as usize) as u16;
        }
        self.count = self.count + 1;
        self.heap.set0(0, self.head as usize);
        self.heap.set1(0, self.head as usize, 3);
        self.heap.set1(head, self.head as usize, 1);
        self.heap.set1(self.tail, self.head as usize, 2);
        self.heap.set1(self.head, head as usize, 2);
        self.heap.set1(self.head, self.tail as usize, 1);
        self.head
    }

    /// Where `list_push_head` puts the new list.
    pub open spec fn pushed_head(&self) -> int {
        if self.spec_count() > 0 {
            self.w(self.spec_head() + self.at(self.spec_head()) + 4)
        } else {
            self.spec_head()
        }
    }

    pub fn list_peak_tail(&mut self) -> (r: u16)
        ensures
            r == old(self).spec_tail(),
            *final(self) == *old(self),
    {
        self.tail
    }

    /// Unlinks the tail list; returns the new tail, or 0 when no list is left.
    pub fn list_pop_tail(&mut self) -> (r: u16)
        requires
            old(self).wf(),
            old(self).spec_count() > 0,
            old(self).spec_count() > 1 ==> old(self).unlink_ok(old(self).spec_tail()),
        ensures
            final(self).wf(),
            final(self).spec_count() + 1 == old(self).spec_count(),
            final(self).spec_head() == if old(self).spec_count() > 1 { old(self).spec_head() } else { 0 },
            r == final(self).spec_tail(),
            old(self).spec_count() > 1 ==> {
                &&& final(self).spec_tail() == old(self).at(old(self).spec_tail() + 2)
                &&& final(self).words() == old(self).unlinked(old(self).spec_tail())
            },
            old(self).spec_count() == 1 ==> {
                &&& final(self).spec_tail() == 0
                &&& final(self).words() == old(self).words()
            },
            final(self).heap().cap() == old(self).heap().cap(),
            final(self).heap().is_wrapping() == old(self).heap().is_wrapping(),
    {
        self.count = self.count - 1;
        if self.count > 0 {
            let prev = self.list_prev(self.tail);
            let next = self.list_next(self.tail);
            self.heap.set1(prev, next as usize, 1);
            self.heap.set1(next, prev as usize, 2);
            self.tail = next;
        } else {
            self.head = 0;
            self.tail = 0;
        }
        self.tail
    }

    /// Unlinks the head list; returns the new head, or 0 when no list is left.
    pub fn list_pop_head(&mut self) -> (r: u16)
        requires
            old(self).wf(),
            old(self).spec_count() > 0,
            old(self).spec_count() > 1 ==> old(self).unlink_ok(old(self).spec_head()),
        ensures
            final(self).wf(),
            final(self).spec_count() + 1 == old(self).spec_count(),
            final(self).spec_tail() == if old(self).spec_count() > 1 { old(self).spec_tail() } else { 0 },
            r == final(self).spec_head(),
            old(self).spec_count() > 1 ==> {
                &&& final(self).spec_head() == old(self).at(old(self).spec_head() + 1)
                &&& final(self).words() == old(self).unlinked(old(self).spec_head())
            },
            old(self).spec_count() == 1 ==> {
                &&& final(self).spec_head() == 0
                &&& final(self).words() == old(self).words()
            },
            final(self).heap().cap() == old(self).heap().cap(),
            final(self).heap().is_wrapping() == old(self).heap().is_wrapping(),
    {
        self.count = self.count - 1;
        if self.count > 0 {
            let prev = self.list_prev(self.head);
            let next = self.list_next(self.head);
            self.heap.set1(prev, next as usize, 1);
            self.heap.set1(next, prev as usize, 2);
            self.head = prev;
        } else {
            self.head = 0;
            self.tail = 0;
        }
        self.head
    }

    /// Whether the list at `idx` can be unlinked: its links and its neighbours' links are in reach.
    pub open spec fn unlink_ok(&self, idx: int) -> bool {
        &&& self.ok(idx + 1)
        &&& self.ok(idx + 2)
        &&& self.ok(self.at(idx + 2) + 1)
        &&& self.ok(self.at(idx + 1) + 2)
    }

    /// The words after the list at `idx` is unlinked: its neighbours point at each other.
    pub open spec fn unlinked(&self, idx: int) -> Seq<u16> {
        let prev = self.at(idx + 1);
        let next = self.at(idx + 2);
        self.words().update(self.w(next + 1), prev).update(self.w(prev + 2), next)
    }

    pub fn list_prev(&self, idx: u16) -> (r: u16)
        requires
            self.wf(),
            self.ok(idx + 1),
        ensures
            r == self.at(idx + 1),
    {
        self.heap.get1(idx as usize, 1)
    }

    pub fn list_next(&self, idx: u16) -> (r: u16)
        requires
            self.wf(),
            self.ok(idx + 2),
        ensures
            r == self.at(idx + 2),
    {
        self.heap.get1(idx as usize, 2)
    }

    pub fn list_hash(&self, idx: u16) -> (r: u16)
        requires
            self.wf(),
            self.ok(idx + 3),
        ensures
            r == self.at(idx + 3),
    {
        self.heap.get1(idx as usize, 3)
    }

    pub fn list_items_count(&self, idx: u16) -> (r: u16)
        requires
            self.wf(),
            self.ok(idx as int),
        ensures
            r == self.at(idx as int),
    {
        self.heap.get0(idx as usize)
    }

    pub fn list_items_resize(&mut self, idx: u16, size: u16)
        requires
            old(self).wf(),
            old(self).ok(idx as int),
        ensures
            final(self).same_fields(old(self)),
            final(self).words() == old(self).words().update(old(self).w(idx as int), size),
    {
        self.heap.set0(size, idx as usize)
    }

    pub fn list_items_add(&mut self, idx: u16, item: u16)
        requires
            old(self).wf(),
            old(self).ok(idx as int),
            old(self).at(idx as int) < u16::MAX,
            old(self).ok(idx + old(self).at(idx as int) + 4),
        ensures
            final(self).same_fields(old(self)),
            final(self).words() == old(self).words().update(
                old(self).w(idx as int),
                (old(self).at(idx as int) + 1) as u16,
            ).update(old(self).w(idx + old(self).at(idx as int) + 4), item),
            old(self).fits(idx as int, old(self).at(idx as int) + 1) ==> final(self).items(idx as int)
                == old(self).items(idx as int).push(item),
    {
        let off = self.heap.get0(idx as usize);
        self.heap.set0(off + 1, idx as usize);
        self.heap.set2(item, idx as usize, off as usize, 4);
        proof {
            let n = old(self).at(idx as int) + 1;
            if old(self).fits(idx as int, n) {
                old(self).lemma_fits(idx as int, n);
                assert(self.at(idx as int) == n);
                assert forall|j: int| 0 <= j < n implies #[trigger] self.items(idx as int)[j] == old(
                    self,
                ).items(idx as int).push(item)[j] by {
                    assert(old(self).ok(idx + 4 + j));
                    assert(old(self).w(idx + 4 + j) != old(self).w(idx as int));
                }
                assert(self.items(idx as int) =~= old(self).items(idx as int).push(item));
            }
        }
    }

    pub fn list_items_set(&mut self, idx: u16, off: u16, item: u16)
        requires
            old(self).wf(),
            old(self).ok(idx + off + 4),
        ensures
            final(self).same_fields(old(self)),
            final(self).words() == old(self).words().update(old(self).w(idx + off + 4), item),
            old(self).fits(idx as int, old(self).at(idx as int) as int) && off < old(self).at(idx as int)
                ==> final(self).items(idx as int) == old(self).items(idx as int).update(off as int, item),
    {
        self.heap.set2(item, idx as usize, off as usize, 4);
        proof {
            let n = old(self).at(idx as int) as int;
            if old(self).fits(idx as int, n) && off < n {
                old(self).lemma_fits(idx as int, n);
                assert(old(self).w(idx + off + 4) != old(self).w(idx as int));
                assert(self.at(idx as int) == n);
                assert forall|j: int| 0 <= j < n implies #[trigger] self.items(idx as int)[j] == old(
                    self,
                ).items(idx as int).update(off as int, item)[j] by {
                    if j != off {
                        assert(old(self).w(idx + 4 + j) != old(self).w(idx + off + 4));
                    }
                }
                assert(self.items(idx as int) =~= old(self).items(idx as int).update(off as int, item));
            }
        }
    }

    pub fn list_items_get(&self, idx: u16, off: u16) -> (r: u16)
        requires
            self.wf(),
            self.ok(idx + off + 4),
        ensures
            r == self.at(idx + off + 4),
            r == self.region(idx as int, off + 1)[off as int],
    {
        self.heap.get2(idx as usize, off as usize, 4)
    }

    /// Whether slot `k` holds one of the first `n` items of the list at `idx`.
    pub open spec fn item_slot(&self, idx: int, n: int, k: int) -> bool {
        exists|j: int| 0 <= j < n && k == #[trigger] self.item_w(idx, j)
    }

    /// The slot of item `j` of the list at `idx`.
    pub open spec fn item_w(&self, idx: int, j: int) -> int {
        self.w(idx + 4 + j)
    }

    /// Item `j` of the list at `idx`, whether or not the list holds that many.
    pub open spec fn item_at(&self, idx: int, j: int) -> u16 {
        self.at(idx + 4 + j)
    }

    /// The words outside the first `n` item slots of the list at `idx` are those of `old`.
    pub open spec fn keeps_outside(&self, old: &Self, idx: int, n: int) -> bool {
        &&& self.words().len() == old.words().len()
        &&& forall|k: int|
            0 <= k < old.words().len() && !old.item_slot(idx, n, k) ==> #[trigger] self.words()[k]
                == old.words()[k]
    }

    /// Reads the items of the list at `idx`.
    fn read_items(&self, idx: u16) -> (r: Vec<u16>)
        requires
            self.wf(),
            self.fits(idx as int, self.at(idx as int) as int),
        ensures
            r@ == self.items(idx as int),
    {
        proof {
            self.lemma_fits(idx as int, self.at(idx as int) as int);
        }
        let n = self.heap.get0(idx as usize);
        let mut out: Vec<u16> = Vec::new();
        let mut j: u16 = 0;
        while j < n
            invariant
                self.wf(),
                n == self.at(idx as int),
                j <= n,
                forall|k: int| idx <= k < idx + 4 + n ==> #[trigger] self.ok(k),
                idx + 4 + n <= u16::MAX + 1,
                out@ == self.items(idx as int).subrange(0, j as int),
            decreases n - j,
        {
            assert(self.ok(idx + 4 + j));
            let v = self.heap.get2(idx as usize, j as usize, 4);
            out.push(v);
            j = j + 1;
            proof {
                assert(out@ =~= self.items(idx as int).subrange(0, j as int));
            }
        }
        proof {
            assert(out@ =~= self.items(idx as int));
        }
        out
    }

    /// Writes `vals` over the first items of the list at `idx`, keeping its count.
    fn write_items(&mut self, idx: u16, vals: &Vec<u16>)
        requires
            old(self).wf(),
            vals@.len() <= old(self).at(idx as int),
            old(self).fits(idx as int, old(self).at(idx as int) as int),
        ensures
            final(self).same_fields(old(self)),
            final(self).at(idx as int) == old(self).at(idx as int),
            final(self).items(idx as int) == vals@ + old(self).items(idx as int).subrange(
                vals@.len() as int,
                old(self).at(idx as int) as int,
            ),
            final(self).keeps_outside(old(self), idx as int, vals@.len() as int),
    {
        let ghost n = old(self).at(idx as int) as int;
        proof {
            old(self).lemma_fits(idx as int, n);
        }
        let len = vals.len();
        let mut j: usize = 0;
        while j < len
            invariant
                self.same_fields(old(self)),
                n == old(self).at(idx as int),
                len == vals@.len() <= n,
                j <= len,
                forall|k: int| idx <= k < idx + 4 + n ==> #[trigger] old(self).ok(k),
                forall|a: int, b: int|
                    idx <= a < idx + 4 + n && idx <= b < idx + 4 + n && a != b ==> #[trigger] old(self).w(a)
                        != #[trigger] old(self).w(b),
                idx + 4 + n <= u16::MAX + 1,
                self.words().len() == old(self).words().len(),
                forall|k: int| 0 <= k < j ==> self.at(idx + 4 + k) == vals@[k],
                forall|k: int|
                    0 <= k < self.words().len() && !old(self).item_slot(idx as int, j as int, k)
                        ==> #[trigger] self.words()[k] == old(self).words()[k],
                forall|a: int| #![trigger self.w(a)] self.w(a) == old(self).w(a),
            decreases len - j,
        {
            assert(old(self).ok(idx + 4 + j));
            assert(self.ok(idx + 4 + j));
            let ghost before = *self;
            self.heap.set2(vals[j], idx as usize, j as usize, 4);
            proof {
                assert forall|k: int| 0 <= k < j + 1 implies self.at(idx + 4 + k) == vals@[k] by {
                    if k < j {
                        assert(old(self).w(idx + 4 + k) != old(self).w(idx + 4 + j));
                        assert(self.w(idx + 4 + k) != self.w(idx + 4 + j));
                    }
                }
                assert forall|k: int|
                    0 <= k < self.words().len() && !old(self).item_slot(idx as int, j + 1, k)
                        implies #[trigger] self.words()[k] == old(self).words()[k] by {
                    if k == self.w(idx + 4 + j) {
                        assert(k == old(self).item_w(idx as int, j as int));
                        assert(old(self).item_slot(idx as int, j + 1, k));
                    }
                    if old(self).item_slot(idx as int, j as int, k) {
                        let jj = choose|jj: int| 0 <= jj < j && k == old(self).item_w(idx as int, jj);
                        assert(old(self).item_slot(idx as int, j + 1, k));
                    }
                }
            }
            j = j + 1;
        }
        proof {
            assert(self.at(idx as int) == n) by {
                assert(!old(self).item_slot(idx as int, len as int, self.w(idx as int))) by {
                    if old(self).item_slot(idx as int, len as int, self.w(idx as int)) {
                        let jj = choose|jj: int| 0 <= jj < len && self.w(idx as int) == old(self).item_w(idx as int, jj);
                        assert(old(self).w(idx as int) != old(self).w(idx + 4 + jj));
                    }
                }
            }
            assert forall|k: int| 0 <= k < n implies #[trigger] self.items(idx as int)[k] == (vals@
                + old(self).items(idx as int).subrange(len as int, n))[k] by {
                if k >= len {
                    assert(!old(self).item_slot(idx as int, len as int, self.w(idx + 4 + k))) by {
                        if old(self).item_slot(idx as int, len as int, self.w(idx + 4 + k)) {
                            let jj = choose|jj: int| 0 <= jj < len && self.w(idx + 4 + k) == old(self).item_w(idx as int, jj);
                            assert(old(self).w(idx + 4 + k) != old(self).w(idx + 4 + jj));
                        }
                    }
                }
            }
            assert(self.items(idx as int) =~= vals@ + old(self).items(idx as int).subrange(len as int, n));
        }
    }

    /// Sorts the items of the list at `idx` in ascending order.
    pub fn list_items_sort(&mut self, idx: u16)
        requires
            old(self).wf(),
            old(self).fits(idx as int, old(self).at(idx as int) as int),
        ensures
            final(self).same_fields(old(self)),
            final(self).at(idx as int) == old(self).at(idx as int),
            sorted(final(self).items(idx as int)),
            final(self).items(idx as int).to_multiset() == old(self).items(idx as int).to_multiset(),
            final(self).keeps_outside(old(self), idx as int, old(self).at(idx as int) as int),
    {
        let mut vals = self.read_items(idx);
        sort_words(&mut vals);
        self.write_items(idx, &vals);
        proof {
            let n = old(self).at(idx as int) as int;
            assert(old(self).items(idx as int).subrange(n, n) =~= Seq::<u16>::empty());
            assert(vals@ + Seq::<u16>::empty() =~= vals@);
        }
    }

    /// Drops leading zero items and collapses runs of equal adjacent items; a list that holds only
    /// zeros becomes empty, and an empty list is left as it is.
    #[verifier::spinoff_prover]
    pub fn list_items_distinct(&mut self, idx: u16)
        requires
            old(self).wf(),
            old(self).fits(idx as int, old(self).at(idx as int) as int),
        ensures
            final(self).same_fields(old(self)),
            final(self).items(idx as int) == distinct(old(self).items(idx as int)),
            forall|k: int|
                distinct(old(self).items(idx as int)).len() <= k < old(self).at(idx as int) ==> #[trigger] final(self).item_at(
                    idx as int, k) == old(self).item_at(idx as int, k),
    {
        let count = self.heap.get0(idx as usize);
        if count > 0 {
            let vals = self.read_items(idx);
            let out = distinct_words(&vals);
            proof {
                lemma_distinct_len(vals@);
            }
            self.write_items(idx, &out);
            let ghost mid = *self;
            self.list_items_resize(idx, out.len() as u16);
            proof {
                let n = out@.len() as int;
                let c = count as int;
                mid.lemma_fits(idx as int, c);
                assert forall|k: int| 0 <= k < c implies #[trigger] self.item_at(idx as int, k) == mid.item_at(idx as int, k) by {
                    assert(mid.w(idx + 4 + k) != mid.w(idx as int));
                }
                assert forall|k: int| 0 <= k < n implies #[trigger] self.items(idx as int)[k] == out@[k] by {
                    assert(self.item_at(idx as int, k) == mid.item_at(idx as int, k));
                    assert(mid.items(idx as int)[k] == out@[k]);
                }
                assert(self.items(idx as int) =~= out@);
                assert forall|k: int| n <= k < c implies #[trigger] self.item_at(idx as int, k) == old(self).item_at(idx as int, k) by {
                    assert(self.item_at(idx as int, k) == mid.item_at(idx as int, k));
                    assert(mid.items(idx as int)[k] == old(self).items(idx as int).subrange(n, c)[k - n]);
                }
            }
        } else {
            proof {
                assert(old(self).items(idx as int) =~= Seq::<u16>::empty());
                assert(distinct(Seq::<u16>::empty()) =~= Seq::<u16>::empty());
            }
        }
    }

    /// Stores in the header of the list at `idx` the low half of a hash of its items.
    pub fn list_items_hash(&mut self, idx: u16)
        requires
            old(self).wf(),
            old(self).fits(idx as int, old(self).at(idx as int) as int),
        ensures
            final(self).same_fields(old(self)),
            final(self).words() == old(self).words().update(
                old(self).w(idx + 3),
                (hash_items(old(self).items(idx as int)) & 0xffff) as u16,
            ),
    {
        proof {
            self.lemma_fits(idx as int, self.at(idx as int) as int);
        }
        let mut hash: u32 = 0xc6a4a793u32;
        let n = self.heap.get0(idx as usize);
        let mut off: u16 = 0;
        while off < n
            invariant
                self.wf(),
                n == self.at(idx as int),
                off <= n,
                forall|k: int| idx <= k < idx + 4 + n ==> #[trigger] self.ok(k),
                idx + 4 + n <= u16::MAX + 1,
                hash == hash_items(self.items(idx as int).subrange(0, off as int)),
            decreases n - off,
        {
            assert(self.ok(idx + 4 + off));
            let val: u32 = self.heap.get2(idx as usize, off as usize, 4) as u32;
            proof {
                let t = self.items(idx as int).subrange(0, off + 1);
                assert(t.drop_last() =~= self.items(idx as int).subrange(0, off as int));
            }
            hash = (hash >> 16) | (hash << 16);
            hash = hash ^ val.wrapping_mul(0xc6a4a793u32);
            off = off + 1;
        }
        proof {
            assert(self.items(idx as int).subrange(0, n as int) =~= self.items(idx as int));
        }
        self.heap.set1((hash & 0xffff) as u16, idx as usize, 3);
    }

    /// Binary search for `item` among the first `high` items of the list at `idx`.
    pub fn list_items_contains(&self, idx: u16, item: u16, high: u16) -> (r: bool)
        requires
            self.wf(),
            self.fits(idx as int, high as int),
        ensures
            r ==> self.region(idx as int, high as int).contains(item),
            sorted(self.region(idx as int, high as int)) ==> (r == self.region(idx as int, high as int).contains(item)),
    {
        proof {
            self.lemma_fits(idx as int, high as int);
        }
        let ghost s = self.region(idx as int, high as int);
        let mut low: i32 = 0i32;
        let mut hi: i32 = high as i32;
        hi -= 1;
        while low <= hi
            invariant
                self.wf(),
                s == self.region(idx as int, s.len() as int),
                s.len() <= u16::MAX,
                forall|k: int| idx <= k < idx + 4 + s.len() ==> #[trigger] self.ok(k),
                idx + 4 + s.len() <= u16::MAX + 1,
                0 <= low <= s.len(),
                s.len() == high,
                -1 <= hi < s.len(),
                hi >= low - 1,
                sorted(s) ==> forall|k: int| 0 <= k < low ==> s[k] < item,
                sorted(s) ==> forall|k: int| hi < k < s.len() ==> s[k] > item,
            decreases hi - low + 1,
        {
            let off = low + (hi - low) / 2;
            assert(self.ok(idx + 4 + off));
            let val = self.heap.get2(idx as usize, off as usize, 4);
            assert(val == s[off as int]);
            if item == val {
                proof {
                    assert(s[off as int] == item);
                    assert(s.contains(item));
                }
                return true;
            }
            if item > val {
                low = off + 1;
            } else {
                hi = off - 1;
            }
        }
        proof {
            if sorted(s) && s.contains(item) {
                let k = choose|k: int| 0 <= k < s.len() && s[k] == item;
                assert(!(k < low));
            }
        }
        false
    }

    /// Whether following the set links from the set at `idx` passes exactly `n` sets, each of whose
    /// header is in reach, before reaching the link 0.
    pub open spec fn chain_ends(&self, idx: int, n: nat) -> bool
        decreases n,
    {
        &&& n >= 1
        &&& 0 <= idx
        &&& idx + 4 <= u16::MAX + 1
        &&& self.ok(idx)
        &&& self.ok(idx + 3)
        &&& if n == 1 {
            self.at(idx + 3) == 0
        } else {
            self.at(idx + 3) != 0 && self.chain_ends(self.at(idx + 3) as int, (n - 1) as nat)
        }
    }

    /// The offsets of the `n` sets linked from the set at `idx`.
    pub open spec fn chain(&self, idx: int, n: nat) -> Seq<int>
        decreases n,
    {
        if n == 0 {
            Seq::empty()
        } else {
            seq![idx] + self.chain(self.at(idx + 3) as int, (n - 1) as nat)
        }
    }

    /// The number of slots of the `n` sets linked from `idx`.
    pub open spec fn chain_capacity(&self, idx: int, n: nat) -> int
        decreases n,
    {
        if n == 0 {
            0
        } else {
            self.at(idx) + self.chain_capacity(self.at(idx + 3) as int, (n - 1) as nat)
        }
    }

    /// The number of taken slots of the `n` sets linked from `idx`.
    pub open spec fn chain_taken(&self, idx: int, n: nat) -> int
        decreases n,
    {
        if n == 0 {
            0
        } else {
            nonzero_count(self.items(idx)) + self.chain_taken(self.at(idx + 3) as int, (n - 1) as nat)
        }
    }

    proof fn lemma_chain_unique(&self, idx: int, n1: nat, n2: nat)
        requires
            self.chain_ends(idx, n1),
            self.chain_ends(idx, n2),
        ensures
            n1 == n2,
        decreases n1,
    {
        if n1 > 1 && n2 > 1 {
            self.lemma_chain_unique(self.at(idx + 3) as int, (n1 - 1) as nat, (n2 - 1) as nat);
        }
    }

    /// The number of sets in the chain from the set at offset 0.
    pub fn set_depth(&self) -> (r: u16)
        requires
            self.wf(),
            exists|n: nat| n <= u16::MAX && #[trigger] self.chain_ends(0, n),
        ensures
            self.chain_ends(0, r as nat),
    {
        let ghost n = choose|n: nat| n <= u16::MAX && #[trigger] self.chain_ends(0, n);
        let mut idx: u16 = 0;
        let mut count: u16 = 0;
        loop
            invariant_except_break
                count < n,
                self.chain_ends(idx as int, (n - count) as nat),
            invariant
                self.wf(),
                n <= u16::MAX,
                self.chain_ends(0, n),
            ensures
                count == n,
            decreases n - count,
        {
            let next = self.heap.get1(idx as usize, 3);
            count = count + 1;
            if next == 0 {
                break;
            }
            idx = next;
        }
        count
    }

    /// The number of slots over the chain of sets from offset 0.
    pub fn set_capacity(&self) -> (r: u16)
        requires
            self.wf(),
            exists|n: nat| #[trigger] self.chain_ends(0, n) && self.chain_capacity(0, n) <= u16::MAX,
        ensures
            exists|n: nat| #[trigger] self.chain_ends(0, n) && r == self.chain_capacity(0, n),
    {
        let ghost n = choose|n: nat| #[trigger] self.chain_ends(0, n) && self.chain_capacity(0, n) <= u16::MAX;
        let mut idx: u16 = 0;
        let mut count: u16 = 0;
        let mut left: Ghost<nat> = Ghost(n);
        loop
            invariant_except_break
                left@ >= 1,
                self.chain_ends(idx as int, left@),
                count + self.chain_capacity(idx as int, left@) == self.chain_capacity(0, n),
            invariant
                self.wf(),
                self.chain_capacity(0, n) <= u16::MAX,
                self.chain_ends(0, n),
            ensures
                count == self.chain_capacity(0, n),
            decreases left@,
        {
            proof {
                lemma_capacity_nonneg(*self, self.at(idx + 3) as int, (left@ - 1) as nat);
            }
            count = count + self.heap.get0(idx as usize);
            let next = self.heap.get1(idx as usize, 3);
            if next == 0 {
                break;
            }
            idx = next;
            left = Ghost((left@ - 1) as nat);
        }
        count
    }

    /// The number of taken slots over the chain of sets from offset 0.
    pub fn set_count(&self) -> (r: u16)
        requires
            self.wf(),
            exists|n: nat|
                #[trigger] self.chain_ends(0, n) && self.chain_taken(0, n) <= u16::MAX && self.chain_fits(0, n),
        ensures
            exists|n: nat| #[trigger] self.chain_ends(0, n) && r == self.chain_taken(0, n),
    {
        let ghost n = choose|n: nat|
            #[trigger] self.chain_ends(0, n) && self.chain_taken(0, n) <= u16::MAX && self.chain_fits(0, n);
        let mut idx: u16 = 0;
        let mut count: u16 = 0;
        let mut left: Ghost<nat> = Ghost(n);
        loop
            invariant_except_break
                left@ >= 1,
                self.chain_ends(idx as int, left@),
                self.chain_fits(idx as int, left@),
                count + self.chain_taken(idx as int, left@) == self.chain_taken(0, n),
            invariant
                self.wf(),
                self.chain_taken(0, n) <= u16::MAX,
                self.chain_ends(0, n),
            ensures
                count == self.chain_taken(0, n),
            decreases left@,
        {
            proof {
                lemma_taken_nonneg(*self, self.at(idx + 3) as int, (left@ - 1) as nat);
                self.lemma_fits(idx as int, self.at(idx as int) as int);
            }
            let here = self.set_taken(idx);
            count = count + here;
            let next = self.heap.get1(idx as usize, 3);
            if next == 0 {
                break;
            }
            idx = next;
            left = Ghost((left@ - 1) as nat);
        }
        count
    }

    /// The number of non-zero slots of the set at `idx`.
    fn set_taken(&self, idx: u16) -> (r: u16)
        requires
            self.wf(),
            self.fits(idx as int, self.at(idx as int) as int),
        ensures
            r == nonzero_count(self.items(idx as int)),
    {
        proof {
            self.lemma_fits(idx as int, self.at(idx as int) as int);
        }
        let slots = self.heap.get0(idx as usize);
        let mut i: u16 = 0;
        let mut here: u16 = 0;
        while i < slots
            invariant
                self.wf(),
                slots == self.at(idx as int),
                forall|k: int| idx <= k < idx + 4 + slots ==> #[trigger] self.ok(k),
                idx + 4 + slots <= u16::MAX + 1,
                i <= slots,
                here == nonzero_count(self.items(idx as int).subrange(0, i as int)),
                here <= i,
            decreases slots - i,
        {
            assert(self.ok(idx + 4 + i));
            let v = self.heap.get2(idx as usize, i as usize, 4);
            proof {
                let t = self.items(idx as int).subrange(0, i + 1);
                assert(t.drop_last() =~= self.items(idx as int).subrange(0, i as int));
            }
            if v != 0 {
                here = here + 1;
            }
            i = i + 1;
        }
        proof {
            assert(self.items(idx as int).subrange(0, slots as int) =~= self.items(idx as int));
        }
        here
    }

    /// Whether following the `next` links from the list at `idx` passes exactly `n` lists, each of
    /// whose header is in reach, before coming back to the tail list.
    pub open spec fn ring_ends(&self, idx: int, n: nat) -> bool
        decreases n,
    {
        &&& n >= 1
        &&& 0 <= idx <= u16::MAX
        &&& self.ok(idx)
        &&& self.ok(idx + 2)
        &&& if n == 1 {
            self.at(idx + 2) == self.spec_tail()
        } else {
            self.at(idx + 2) != self.spec_tail() && self.ring_ends(self.at(idx + 2) as int, (n - 1) as nat)
        }
    }

    /// The words taken, headers included, by the `n` lists that follow `idx` in the ring.
    pub open spec fn ring_usage(&self, idx: int, n: nat) -> int
        decreases n,
    {
        if n == 0 {
            0
        } else {
            4 + self.at(idx) + self.ring_usage(self.at(idx + 2) as int, (n - 1) as nat)
        }
    }

    proof fn lemma_ring_unique(&self, idx: int, n1: nat, n2: nat)
        requires
            self.ring_ends(idx, n1),
            self.ring_ends(idx, n2),
        ensures
            n1 == n2,
        decreases n1,
    {
        if n1 > 1 && n2 > 1 {
            self.lemma_ring_unique(self.at(idx + 2) as int, (n1 - 1) as nat, (n2 - 1) as nat);
        }
    }

    proof fn lemma_ring_usage_bound(&self, idx: int, n: nat)
        ensures
            self.ring_usage(idx, n) >= 4 * n,
        decreases n,
    {
        if n > 0 {
            self.lemma_ring_usage_bound(self.at(idx + 2) as int, (n - 1) as nat);
        }
    }

    /// The words taken by all lists, headers included, walking the ring from the tail.
    pub fn usage(&self) -> (r: u16)
        requires
            self.wf(),
            exists|n: nat| #[trigger] self.ring_ends(self.spec_tail(), n) && self.ring_usage(self.spec_tail(), n) <= u16::MAX,
        ensures
            forall|n: nat| #[trigger] self.ring_ends(self.spec_tail(), n) ==> r == self.ring_usage(self.spec_tail(), n),
    {
        let ghost t = self.spec_tail();
        let ghost n = choose|n: nat| #[trigger] self.ring_ends(t, n) && self.ring_usage(t, n) <= u16::MAX;
        let mut idx: u16 = self.tail;
        let mut count: u16 = 0;
        let mut left: Ghost<nat> = Ghost(n);
        loop
            invariant_except_break
                left@ >= 1,
                self.ring_ends(idx as int, left@),
                count + self.ring_usage(idx as int, left@) == self.ring_usage(t, n),
            invariant
                self.wf(),
                t == self.spec_tail(),
                self.ring_usage(t, n) <= u16::MAX,
                self.ring_ends(t, n),
            ensures
                count == self.ring_usage(t, n),
            decreases left@,
        {
            proof {
                self.lemma_ring_usage_bound(self.at(idx + 2) as int, (left@ - 1) as nat);
            }
            count = count + 4 + self.heap.get0(idx as usize);
            idx = self.heap.get1(idx as usize, 2);
            if idx == self.tail {
                break;
            }
            left = Ghost((left@ - 1) as nat);
        }
        proof {
            assert forall|m: nat| #[trigger] self.ring_ends(t, m) implies count == self.ring_usage(t, m) by {
                self.lemma_ring_unique(t, m, n);
            }
        }
        count
    }

    /// The head of the ring.
    pub fn head(&self) -> (r: u16)
        ensures
            r == self.spec_head(),
    {
        self.head
    }

    /// The tail of the ring.
    pub fn tail(&self) -> (r: u16)
        ensures
            r == self.spec_tail(),
    {
        self.tail
    }

    /// The word at offset `k` of a heap like this one that holds `ws`.
    pub open spec fn at_in(&self, ws: Seq<u16>, k: int) -> u16 {
        ws[self.w(k)]
    }

    /// `ws` with the first `n` item slots of the list at `idx` set to zero.
    pub open spec fn zeroed(&self, ws: Seq<u16>, idx: int, n: int) -> Seq<u16> {
        Seq::new(ws.len(), |k: int| if self.item_slot(idx, n, k) { 0u16 } else { ws[k] })
    }

    /// Where `set_push_head` puts the new set.
    pub open spec fn set_pushed_head(&self) -> int {
        if self.spec_head() > 0 {
            self.w(self.spec_head() + self.at(self.spec_head()) + 4)
        } else {
            self.spec_head()
        }
    }

    /// The words after `set_push_head(slots)`.
    pub open spec fn set_pushed_words(&self, slots: u16) -> Seq<u16> {
        let nh = self.set_pushed_head();
        let h0 = self.spec_head();
        let t = self.spec_tail();
        self.zeroed(self.words().update(self.w(nh), slots).update(self.w(nh + 3), 0u16), nh, slots as int).update(
            self.w(nh + 1),
            h0 as u16,
        ).update(self.w(nh + 2), t as u16).update(self.w(h0 + 2), nh as u16).update(self.w(t + 1), nh as u16)
    }

    /// Whether every word that `set_push_head` with `slots` slots reads or writes is in reach.
    pub open spec fn set_push_ok(&self, slots: int) -> bool {
        let nh = self.set_pushed_head();
        &&& self.spec_count() < u16::MAX
        &&& self.spec_head() > 0 ==> self.ok(self.spec_head()) && self.spec_head() + self.at(self.spec_head()) + 4
            <= u16::MAX
        &&& 0 <= slots <= u16::MAX
        &&& forall|k: int| nh <= k < nh + 4 + slots ==> #[trigger] self.ok(k)
        &&& self.ok(self.spec_head() + 2)
        &&& self.ok(self.spec_tail() + 1)
    }

    /// Appends a set of `slots` empty slots after the head list and makes it the head; returns its
    /// offset.
    pub fn set_push_head(&mut self, slots: u16) -> (r: u16)
        requires
            old(self).wf(),
            old(self).set_push_ok(slots as int),
        ensures
            r == old(self).set_pushed_head(),
            final(self).spec_head() == r,
            final(self).spec_tail() == old(self).spec_tail(),
            final(self).spec_count() == old(self).spec_count() + 1,
            final(self).wf(),
            final(self).heap().cap() == old(self).heap().cap(),
            final(self).heap().is_wrapping() == old(self).heap().is_wrapping(),
            final(self).words() == old(self).set_pushed_words(slots),
    {
        let ghost nh = old(self).set_pushed_head();
        let head = self.head;
        if self.head > 0 {
            let off = self.heap.get0(self.head as usize);
            self.head = self.heap.guard0((self.head + off + 4) as usize) as u16;
        }
        assert(self.head == nh);
        self.count = self.count + 1;
        assert(old(self).ok(nh));
        assert(old(self).ok(nh + 3));
        self.heap.set0(slots, self.head as usize);
        self.heap.set1(0, self.head as usize, 3);
        let ghost w1 = self.words();
        let mut i: u16 = 0;
        while i < slots
            invariant
                self.wf(),
                self.heap().cap() == old(self).heap().cap(),
                self.heap().is_wrapping() == old(self).heap().is_wrapping(),
                self.spec_head() == nh,
                self.spec_tail() == old(self).spec_tail(),
                self.spec_count() == old(self).spec_count() + 1,
                forall|k: int| nh <= k < nh + 4 + slots ==> #[trigger] old(self).ok(k),
                0 <= nh <= u16::MAX,
                i <= slots,
                self.words() == old(self).zeroed(w1, nh, i as int),
            decreases slots - i,
        {
            assert(old(self).ok(nh + 4 + i));
            self.heap.set2(0, self.head as usize, i as usize, 4);
            proof {
                assert forall|k: int| 0 <= k < w1.len() implies #[trigger] self.words()[k] == old(self).zeroed(
                    w1,
                    nh,
                    i + 1,
                )[k] by {
                    if k == old(self).w(nh + 4 + i) {
                        assert(old(self).item_w(nh, i as int) == k);
                        assert(old(self).item_slot(nh, i + 1, k));
                    } else {
                        if old(self).item_slot(nh, i + 1, k) {
                            let j = choose|j: int| 0 <= j < i + 1 && k == #[trigger] old(self).item_w(nh, j);
                            assert(j != i);
                            assert(old(self).item_slot(nh, i as int, k));
                        }
                        if old(self).item_slot(nh, i as int, k) {
                            let j = choose|j: int| 0 <= j < i && k == #[trigger] old(self).item_w(nh, j);
                            assert(old(self).item_slot(nh, i + 1, k));
                        }
                    }
                }
                assert(self.words() =~= old(self).zeroed(w1, nh, i + 1));
            }
            i = i + 1;
        }
        self.heap.set1(head, self.head as usize, 1);
        self.heap.set1(self.tail, self.head as usize, 2);
        self.heap.set1(self.head, head as usize, 2);
        self.heap.set1(self.head, self.tail as usize, 1);
        self.head
    }

    /// Whether each of the `n` sets linked from `s` has at least one slot.
    pub open spec fn chain_pos(&self, s: int, n: nat) -> bool
        decreases n,
    {
        if n == 0 {
            true
        } else {
            self.at(s) > 0 && self.chain_pos(self.at(s + 3) as int, (n - 1) as nat)
        }
    }

    /// The last of the `n` sets linked from `s`.
    pub open spec fn chain_last(&self, s: int, n: nat) -> int
        decreases n,
    {
        if n <= 1 {
            s
        } else {
            self.chain_last(self.at(s + 3) as int, (n - 1) as nat)
        }
    }

    /// Where `set_items_add`, over the words `ws`, puts the list at `list` in the set at `s` at
    /// depth `d`: the slot picked by the rotated hash of the list.
    pub open spec fn add_probe_in(&self, ws: Seq<u16>, s: int, list: int, d: int) -> int {
        let p = rotated(self.at_in(ws, list + 3), (d % 32) as u32) & ((self.at_in(ws, s) - 1) as u16);
        s + self.w(p as int + 4)
    }

    pub open spec fn add_probe(&self, s: int, list: int, d: int) -> int {
        self.add_probe_in(self.words(), s, list, d)
    }

    /// The set, with its depth, whose probed slot for `list` is free, walking the `n` sets linked
    /// from `s`, which is at depth `d`.
    pub open spec fn free_set(&self, s: int, list: int, d: int, n: nat) -> Option<(int, int)>
        decreases n,
    {
        if n == 0 {
            None
        } else if self.at(self.add_probe(s, list, d)) == 0 {
            Some((s, d))
        } else {
            self.free_set(self.at(s + 3) as int, list, d + 1, (n - 1) as nat)
        }
    }

    /// The words after a set twice as large as the last set `l` is pushed at `nh` and linked from `l`.
    pub open spec fn set_grown_words(&self, l: int, nh: int) -> Seq<u16> {
        self.set_pushed_words((2 * self.at(l)) as u16).update(self.w(l + 3), nh as u16)
    }

    /// Whether `set_items_add` can put the list at `list` in the chain of `n` sets from `idx`: the
    /// chain is in reach, and where no probed slot is free, a new set can be pushed whose probed
    /// slot is free.
    pub open spec fn set_add_ok(&self, idx: int, list: int, n: nat) -> bool {
        &&& self.chain_ends(idx, n)
        &&& self.chain_fits(idx, n)
        &&& self.chain_pos(idx, n)
        &&& n < u32::MAX
        &&& self.ok(list + 3)
        &&& self.free_set(idx, list, 0, n) is None ==> {
            let l = self.chain_last(idx, n);
            let nh = self.set_pushed_head();
            let ws = self.set_grown_words(l, nh);
            &&& 2 * self.at(l) <= u16::MAX
            &&& self.set_push_ok(2 * self.at(l))
            &&& self.at_in(ws, nh) > 0
            &&& self.ok(self.add_probe_in(ws, nh, list, n as int))
            &&& self.at_in(ws, self.add_probe_in(ws, nh, list, n as int)) == 0
        }
    }

    /// What `set_items_add` leaves: the list in the first free probed slot of the chain, or in a
    /// new set linked from the last one.
    pub open spec fn set_added(&self, old: &Self, idx: int, list: int, n: nat) -> bool {
        &&& self.wf()
        &&& self.heap().cap() == old.heap().cap()
        &&& self.heap().is_wrapping() == old.heap().is_wrapping()
        &&& self.spec_tail() == old.spec_tail()
        &&& match old.free_set(idx, list, 0, n) {
            Some((s, d)) => {
                &&& self.spec_count() == old.spec_count()
                &&& self.spec_head() == old.spec_head()
                &&& self.words() == old.words().update(old.w(old.add_probe(s, list, d)), list as u16)
            },
            None => {
                let nh = old.set_pushed_head();
                let ws = old.set_grown_words(old.chain_last(idx, n), nh);
                &&& self.spec_count() == old.spec_count() + 1
                &&& self.spec_head() == nh
                &&& self.words() == ws.update(old.w(old.add_probe_in(ws, nh, list, n as int)), list as u16)
            },
        }
    }

    /// Puts the list at `list` in the first set of the chain from `idx` whose slot picked by the
    /// list's hash is free, growing the chain by a set twice as large when none is.
    #[verifier::spinoff_prover]
    pub fn set_items_add(&mut self, idx: u16, list: u16)
        requires
            old(self).wf(),
            exists|n: nat| #[trigger] old(self).chain_ends(idx as int, n) && old(self).set_add_ok(idx as int, list as int, n),
        ensures
            forall|n: nat| #[trigger] old(self).chain_ends(idx as int, n) ==> final(self).set_added(old(self), idx as int, list as int, n),
    {
        let ghost n = choose|n: nat| #[trigger] old(self).chain_ends(idx as int, n) && old(self).set_add_ok(idx as int, list as int, n);
        proof {
            assert forall|m: nat| #[trigger] old(self).chain_ends(idx as int, m) implies m == n by {
                old(self).lemma_chain_unique(idx as int, m, n);
            }
        }
        let mut cur: u16 = idx;
        let mut depth: u32 = 0;
        loop
            invariant_except_break
                depth < n,
                old(self).chain_ends(cur as int, (n - depth) as nat),
                old(self).chain_fits(cur as int, (n - depth) as nat),
                old(self).chain_pos(cur as int, (n - depth) as nat),
                old(self).free_set(idx as int, list as int, 0, n) == old(self).free_set(cur as int, list as int, depth as int, (n - depth) as nat),
                old(self).chain_last(idx as int, n) == old(self).chain_last(cur as int, (n - depth) as nat),
            invariant
                *self == *old(self),
                old(self).wf(),
                old(self).set_add_ok(idx as int, list as int, n),
                forall|m: nat| #[trigger] old(self).chain_ends(idx as int, m) ==> m == n,
            ensures
                depth + 1 == n,
                old(self).free_set(idx as int, list as int, 0, n) is None,
                old(self).chain_last(idx as int, n) == cur,
                old(self).ok(cur + 3),
            decreases n - depth,
        {
            proof {
                old(self).lemma_fits(cur as int, old(self).at(cur as int) as int);
            }
            let hash = self.heap.get1(list as usize, 3);
            let shift = rotate(hash, depth % 32);
            let count = self.heap.get0(cur as usize);
            let mask: u16 = count - 1;
            proof {
                assert(shift & mask <= mask) by (bit_vector);
            }
            let off = self.heap.guard1((shift & mask) as usize, 4);
            let slot = self.heap.get1(cur as usize, off);
            if slot == 0 {
                self.heap.set1(list, cur as usize, off);
                return;
            }
            assert(slot == old(self).at(old(self).add_probe(cur as int, list as int, depth as int)));
            let next = self.heap.get1(cur as usize, 3);
            if next == 0 {
                assert((n - depth) as nat == 1);
                assert(old(self).at(old(self).add_probe(cur as int, list as int, depth as int)) != 0);
                assert(old(self).free_set(old(self).at(cur as int + 3) as int, list as int, depth + 1, 0) is None);
                assert(old(self).free_set(cur as int, list as int, depth as int, 1) is None);
                break;
            }
            cur = next;
            depth = depth + 1;
        }
        let count = self.heap.get0(cur as usize);
        let ghost l = cur as int;
        let ghost before = *self;
        let next = self.set_push_head(2 * count);
        self.heap.set1(next, cur as usize, 3);
        proof {
            assert(self.words() == old(self).set_grown_words(l, next as int));
        }
        cur = next;
        depth = depth + 1;
        let hash = self.heap.get1(list as usize, 3);
        let shift = rotate(hash, depth % 32);
        let count = self.heap.get0(cur as usize);
        let mask: u16 = count - 1;
        let off = self.heap.guard1((shift & mask) as usize, 4);
        self.heap.set1(list, cur as usize, off);
    }

    /// Where `set_items_find` looks for the list at `list` in the set at `s` at depth `d`.
    pub open spec fn find_probe(&self, s: int, list: int, d: int) -> int {
        s + 4 + (rotated(self.at(list + 3), (d % 32) as u32) & ((self.at(s) - 1) as u16)) as int
    }

    /// Whether the first `m` items of the lists at `a` and `b` are equal.
    pub open spec fn same_prefix(&self, a: int, b: int, m: int) -> bool {
        forall|i: int| 0 <= i < m ==> #[trigger] self.item_at(a, i) == self.item_at(b, i)
    }

    /// How many items `set_items_find` compares.
    pub open spec fn compared(&self, list: int, len: int) -> int {
        if len < self.at(list) {
            len
        } else {
            self.at(list) as int
        }
    }

    /// Whether the list stored at `slot` matches the list at `list`: same hash, same count, and the
    /// same first `compared` items.
    pub open spec fn matches_list(&self, slot: int, list: int, len: int) -> bool {
        &&& self.at(slot + 3) == self.at(list + 3)
        &&& self.at(slot) == self.at(list)
        &&& self.same_prefix(list, slot, self.compared(list, len))
    }

    /// The offset of the first list stored in a probed slot of the `n` sets from `s` (at depth `d`)
    /// that matches the list at `list`, or 0 once a probed slot is empty or the chain ends.
    pub open spec fn found_in(&self, s: int, list: int, len: int, d: int, n: nat) -> int
        decreases n,
    {
        if n == 0 {
            0
        } else {
            let slot = self.at(self.find_probe(s, list, d)) as int;
            if slot == 0 {
                0
            } else if self.matches_list(slot, list, len) {
                slot
            } else {
                self.found_in(self.at(s + 3) as int, list, len, d + 1, (n - 1) as nat)
            }
        }
    }

    /// Whether every list that `set_items_find` reads through the probed slots is in reach.
    pub open spec fn find_ok(&self, s: int, list: int, len: int, d: int, n: nat) -> bool
        decreases n,
    {
        if n == 0 {
            true
        } else {
            let slot = self.at(self.find_probe(s, list, d)) as int;
            slot != 0 ==> {
                &&& self.ok(slot)
                &&& self.ok(slot + 3)
                &&& forall|i: int| 0 <= i < self.compared(list, len) ==> #[trigger] self.ok(slot + 4 + i)
                &&& !self.matches_list(slot, list, len) ==> self.find_ok(self.at(s + 3) as int, list, len, d + 1, (n - 1) as nat)
            }
        }
    }

    /// Looks the list at `list` up in the chain of sets from `idx`, comparing at most `len` items;
    /// returns the offset of the stored list that matches, or 0.
    pub fn set_items_find(&self, idx: u16, list: u16, len: u16) -> (r: u16)
        requires
            self.wf(),
            exists|n: nat|
                #[trigger] self.chain_ends(idx as int, n) && self.chain_fits(idx as int, n) && self.chain_pos(idx as int, n)
                    && n < u32::MAX && self.find_ok(idx as int, list as int, len as int, 0, n),
            self.ok(list as int),
            self.ok(list + 3),
            forall|i: int| 0 <= i < self.compared(list as int, len as int) ==> #[trigger] self.ok(list + 4 + i),
        ensures
            forall|n: nat| #[trigger] self.chain_ends(idx as int, n) ==> r == self.found_in(idx as int, list as int, len as int, 0, n),
    {
        let ghost n = choose|n: nat|
            #[trigger] self.chain_ends(idx as int, n) && self.chain_fits(idx as int, n) && self.chain_pos(idx as int, n)
                && n < u32::MAX && self.find_ok(idx as int, list as int, len as int, 0, n);
        proof {
            assert forall|m: nat| #[trigger] self.chain_ends(idx as int, m) implies m == n by {
                self.lemma_chain_unique(idx as int, m, n);
            }
        }
        let mut cur: u16 = idx;
        let mut depth: u32 = 0;
        loop
            invariant_except_break
                depth < n,
                self.chain_ends(cur as int, (n - depth) as nat),
                self.chain_fits(cur as int, (n - depth) as nat),
                self.chain_pos(cur as int, (n - depth) as nat),
                self.find_ok(cur as int, list as int, len as int, depth as int, (n - depth) as nat),
                self.found_in(idx as int, list as int, len as int, 0, n) == self.found_in(cur as int, list as int, len as int, depth as int, (n - depth) as nat),
            invariant
                self.wf(),
                n < u32::MAX,
                self.ok(list as int),
                self.ok(list + 3),
                forall|i: int| 0 <= i < self.compared(list as int, len as int) ==> #[trigger] self.ok(list + 4 + i),
                forall|m: nat| #[trigger] self.chain_ends(idx as int, m) ==> m == n,
            ensures
                self.found_in(idx as int, list as int, len as int, 0, n) == 0,
            decreases n - depth,
        {
            proof {
                self.lemma_fits(cur as int, self.at(cur as int) as int);
            }
            let hash = self.heap.get1(list as usize, 3);
            let shift = rotate(hash, depth % 32);
            let count = self.heap.get0(cur as usize);
            let mask: u16 = count - 1;
            proof {
                assert(shift & mask <= mask) by (bit_vector);
            }
            let slot = self.heap.get2(cur as usize, (shift & mask) as usize, 4);
            if slot == 0 {
                break;
            }
            assert(slot == self.at(self.find_probe(cur as int, list as int, depth as int)));
            let mut matched = false;
            if self.heap.get1(slot as usize, 3) == hash && self.heap.get0(slot as usize) == self.heap.get0(list as usize) {
                let own = self.heap.get0(list as usize);
                let m = if len < own { len } else { own };
                let mut found = true;
                let mut i: u16 = 0;
                while i < m
                    invariant
                        self.wf(),
                        m == self.compared(list as int, len as int),
                        i <= m,
                        forall|k: int| 0 <= k < m ==> #[trigger] self.ok(list + 4 + k),
                        forall|k: int| 0 <= k < m ==> #[trigger] self.ok(slot + 4 + k),
                        found == self.same_prefix(list as int, slot as int, i as int),
                    decreases m - i,
                {
                    assert(self.ok(list + 4 + i));
                    assert(self.ok(slot + 4 + i));
                    let left = self.heap.get2(list as usize, i as usize, 4);
                    let right = self.heap.get2(slot as usize, i as usize, 4);
                    if left != right {
                        found = false;
                    }
                    proof {
                        if found {
                            assert forall|k: int| 0 <= k < i + 1 implies #[trigger] self.item_at(list as int, k) == self.item_at(slot as int, k) by {
                                if k < i {
                                    assert(self.same_prefix(list as int, slot as int, i as int));
                                }
                            }
                        } else {
                            if left != right {
                                assert(self.item_at(list as int, i as int) != self.item_at(slot as int, i as int));
                            }
                        }
                    }
                    i = i + 1;
                }
                matched = found;
            }
            assert(matched == self.matches_list(slot as int, list as int, len as int));
            if matched {
                return slot;
            }
            let next = self.heap.get1(cur as usize, 3);
            if next == 0 {
                assert((n - depth) as nat == 1);
                assert(self.found_in(next as int, list as int, len as int, depth + 1, 0) == 0);
                assert(!self.matches_list(slot as int, list as int, len as int));
                assert(self.found_in(cur as int, list as int, len as int, depth as int, 1) == 0);
                break;
            }
            cur = next;
            depth = depth + 1;
        }
        0
    }

    /// Whether each of the `n` sets linked from `idx` lies in distinct slots.
    pub open spec fn chain_fits(&self, idx: int, n: nat) -> bool
        decreases n,
    {
        if n == 0 {
            true
        } else {
            self.fits(idx, self.at(idx) as int) && self.chain_fits(self.at(idx + 3) as int, (n - 1) as nat)
        }
    }

    fn list_items_put(&mut self, idx: u16, off: u16, item: u16)
        requires
            old(self).wf(),
            old(self).ok(idx + off + 4),
        ensures
            final(self).same_fields(old(self)),
            final(self).words() == old(self).words().update(old(self).w(idx + off + 4), item),
    {
        self.heap.set2(item, idx as usize, off as usize, 4);
    }
}

/// `h` rotated left by `r` bits.
pub open spec fn rotated(h: u16, r: u32) -> u16 {
    let k = r % 16;
    if k == 0 {
        h
    } else {
        ((h << k) | (h >> ((16 - k) as u32))) as u16
    }
}

fn rotate(h: u16, r: u32) -> (out: u16)
    ensures
        out == rotated(h, r),
{
    let k = r % 16;
    if k == 0 {
        h
    } else {
        (h << k) | (h >> (16 - k))
    }
}

/// One round of the list hash: rotate by half a word and mix in the item.
pub open spec fn hash_step(h: u32, v: u16) -> u32 {
    ((h >> 16u32) | (h << 16u32)) ^ vstd::wrapping::u32_specs::wrapping_mul(v as u32, 0xc6a4a793u32)
}

/// The hash of a list's items.
pub open spec fn hash_items(s: Seq<u16>) -> u32
    decreases s.len(),
{
    if s.len() == 0 {
        0xc6a4a793u32
    } else {
        hash_step(hash_items(s.drop_last()), s.last())
    }
}

proof fn lemma_distinct_len(s: Seq<u16>)
    ensures
        distinct(s).len() <= s.len(),
{
    lemma_drop_zeros_len(s);
    lemma_dedup_len(super::words::drop_zeros(s));
}

proof fn lemma_drop_zeros_len(s: Seq<u16>)
    ensures
        super::words::drop_zeros(s).len() <= s.len(),
    decreases s.len(),
{
    if s.len() > 0 && s[0] == 0 {
        lemma_drop_zeros_len(s.drop_first());
    }
}

proof fn lemma_dedup_len(s: Seq<u16>)
    ensures
        super::words::dedup(s).len() <= s.len(),
    decreases s.len(),
{
    if s.len() > 1 {
        lemma_dedup_len(s.drop_last());
    }
}

/// The number of non-zero words.
pub open spec fn nonzero_count(s: Seq<u16>) -> int
    decreases s.len(),
{
    if s.len() == 0 {
        0
    } else {
        nonzero_count(s.drop_last()) + if s.last() != 0 { 1int } else { 0int }
    }
}

proof fn lemma_nonzero_count_bounds(s: Seq<u16>)
    ensures
        0 <= nonzero_count(s) <= s.len(),
    decreases s.len(),
{
    if s.len() > 0 {
        lemma_nonzero_count_bounds(s.drop_last());
    }
}

proof fn lemma_capacity_nonneg<SIZE: AllocatorSize, GUARD: Guard>(c: Collection<SIZE, GUARD>, idx: int, n: nat)
    ensures
        c.chain_capacity(idx, n) >= 0,
    decreases n,
{
    if n > 0 {
        lemma_capacity_nonneg(c, c.at(idx + 3) as int, (n - 1) as nat);
    }
}

proof fn lemma_taken_nonneg<SIZE: AllocatorSize, GUARD: Guard>(c: Collection<SIZE, GUARD>, idx: int, n: nat)
    ensures
        c.chain_taken(idx, n) >= 0,
    decreases n,
{
    if n > 0 {
        lemma_nonzero_count_bounds(c.items(idx));
        lemma_taken_nonneg(c, c.at(idx + 3) as int, (n - 1) as nat);
    }
}

} // verus!
