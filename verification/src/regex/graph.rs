use vstd::prelude::*;

use super::heap::{AllocatorSize, Guard, Heap};
use super::pages::{has_room, took_first_run, Naive64Pages};

verus! {

/// A transition `src --[via.0, via.1]--> dst` with its metadata, packed in one word.
pub open spec fn encode(src: u16, via: (u8, u8), dst: u16, meta: u16) -> u64 {
    ((src as u64) << 48u64) | ((meta as u64) << 16u64) | (dst as u64) | ((via.0 as u64) << 40u64) | ((
    via.1 as u64) << 32u64)
}

/// The transition packed in a word: `(src, (via.0, via.1), dst, meta)`.
pub open spec fn decode(w: u64) -> (u16, (u8, u8), u16, u16) {
    (
        (w >> 48u64) as u16,
        (((w >> 40u64) & 0xff) as u8, ((w >> 32u64) & 0xff) as u8),
        (w & 0xffff) as u16,
        ((w >> 16u64) & 0xffff) as u16,
    )
}

/// The word with its metadata replaced.
pub open spec fn with_meta(w: u64, meta: u16) -> u64 {
    (w & 0xffffffff0000ffffu64) | ((meta as u64) << 16u64)
}

/// The sort key of a transition: its source, then the start of its byte range.
pub open spec fn key(w: u64) -> u64 {
    w >> 40u64
}

/// Whether the words are in ascending order of their keys.
pub open spec fn sorted_by_key(s: Seq<u64>) -> bool {
    forall|i: int, j: int| 0 <= i < j < s.len() ==> key(#[trigger] s[i]) <= key(#[trigger] s[j])
}

/// Packing a transition and reading it back gives the transition.
pub proof fn lemma_decode_encode(src: u16, via: (u8, u8), dst: u16, meta: u16)
    ensures
        decode(encode(src, via, dst, meta)) == (src, via, dst, meta),
{
    let (a, b) = via;
    let w = encode(src, via, dst, meta);
    assert((w >> 48u64) as u16 == src && (((w >> 40u64) & 0xff) as u8) == a && (((w >> 32u64) & 0xff) as u8)
        == b && ((w & 0xffff) as u16) == dst && (((w >> 16u64) & 0xffff) as u16) == meta) by (bit_vector)
        requires
            w == ((src as u64) << 48u64) | ((meta as u64) << 16u64) | (dst as u64) | ((a as u64) << 40u64) | ((
            b as u64) << 32u64),
    ;
}

/// Replacing the metadata keeps the rest of the transition.
pub proof fn lemma_with_meta(w: u64, meta: u16)
    ensures
        decode(with_meta(w, meta)) == (decode(w).0, decode(w).1, decode(w).2, meta),
{
    let v = with_meta(w, meta);
    assert((v >> 48u64) as u16 == (w >> 48u64) as u16 && (((v >> 40u64) & 0xff) as u8) == (((w >> 40u64) & 0xff) as u8)
        && (((v >> 32u64) & 0xff) as u8) == (((w >> 32u64) & 0xff) as u8) && ((v & 0xffff) as u16) == ((w & 0xffff) as u16)
        && (((v >> 16u64) & 0xffff) as u16) == meta) by (bit_vector)
        requires
            v == (w & 0xffffffff0000ffffu64) | ((meta as u64) << 16u64),
    ;
}

/// The key orders transitions by source, then by the start of the byte range.
proof fn lemma_key_order(l: u64, r: u64)
    ensures
        (key(l) > key(r)) == (decode(l).0 > decode(r).0 || (decode(l).0 == decode(r).0 && decode(l).1.0 > decode(
            r,
        ).1.0)),
        (key(l) == key(r)) == (decode(l).0 == decode(r).0 && decode(l).1.0 == decode(r).1.0),
{
    assert(((l >> 40u64) > (r >> 40u64)) == (((l >> 48u64) as u16) > ((r >> 48u64) as u16) || (((l >> 48u64) as u16)
        == ((r >> 48u64) as u16) && (((l >> 40u64) & 0xff) as u8) > (((r >> 40u64) & 0xff) as u8)))) by (bit_vector);
    assert(((l >> 40u64) == (r >> 40u64)) == (((l >> 48u64) as u16) == ((r >> 48u64) as u16) && (((l >> 40u64) & 0xff) as u8)
        == (((r >> 40u64) & 0xff) as u8))) by (bit_vector);
}


/// Whether transition `i` leaves state `i`, for every `i`.
pub open spec fn numbered(s: Seq<u64>) -> bool {
    forall|i: int| 0 <= i < s.len() ==> decode(#[trigger] s[i]).0 == i
}

/// Whether every byte range starts no later than it ends.
pub open spec fn ranges_wf(s: Seq<u64>) -> bool {
    forall|i: int| 0 <= i < s.len() ==> decode(#[trigger] s[i]).1.0 <= decode(s[i]).1.1
}

/// Whether the transition in `w` leaves `src` on byte `via`.
pub open spec fn matches(w: u64, src: u16, via: u8) -> bool {
    decode(w).0 == src && decode(w).1.0 <= via <= decode(w).1.1
}

/// Whether every node of the first `n` words from `lo` on comes before its children in key order.
pub open spec fn heap_ok(s: Seq<u64>, lo: int, n: int) -> bool {
    forall|k: int, c: int|
        lo <= k < n && 0 <= c < n && (c == 2 * k + 1 || c == 2 * k + 2) ==> key(#[trigger] s[k]) >= key(#[trigger] s[c])
}

/// The root of a heap holds a largest key.
proof fn lemma_root_max(s: Seq<u64>, n: int)
    requires
        heap_ok(s, 0, n),
        n <= s.len(),
    ensures
        forall|k: int| 0 <= k < n ==> key(s[0]) >= key(#[trigger] s[k]),
{
    assert forall|k: int| 0 <= k < n implies key(s[0]) >= key(#[trigger] s[k]) by {
        lemma_root_max_at(s, n, k);
    }
}

proof fn lemma_root_max_at(s: Seq<u64>, n: int, k: int)
    requires
        heap_ok(s, 0, n),
        n <= s.len(),
        0 <= k < n,
    ensures
        key(s[0]) >= key(s[k]),
    decreases k,
{
    if k > 0 {
        let p = (k - 1) / 2;
        lemma_root_max_at(s, n, p);
        assert(key(s[p]) >= key(s[k]));
    }
}

/// Swapping two of the first `n` words keeps the words they hold.
proof fn lemma_swap_multiset(s: Seq<u64>, a: int, b: int, n: int)
    requires
        0 <= a < n,
        0 <= b < n,
        n <= s.len(),
    ensures
        s.update(a, s[b]).update(b, s[a]).subrange(0, n).to_multiset() == s.subrange(0, n).to_multiset(),
{
    broadcast use vstd::seq_lib::group_to_multiset_ensures;

    let t = s.subrange(0, n);
    assert(s.update(a, s[b]).update(b, s[a]).subrange(0, n) =~= t.update(a, t[b]).update(b, t[a]));
    let u = t.update(a, t[b]);
    assert(u.to_multiset() == t.to_multiset().insert(t[b]).remove(t[a]));
    assert(u.update(b, t[a]).to_multiset() == u.to_multiset().insert(t[a]).remove(u[b]));
    if a == b {
        assert(t.update(a, t[b]).update(b, t[a]) =~= t);
    } else {
        assert(u[b] == t[b]);
        assert(t.update(a, t[b]).update(b, t[a]).to_multiset() =~= t.to_multiset());
    }
}

/// Transitions kept in the words of a heap, the first `head` of them in use.
pub struct Graph<SIZE, GUARD> {
    heap: Heap<u64, SIZE, GUARD>,
    head: u16,
}

impl<SIZE: AllocatorSize, GUARD: Guard> Graph<SIZE, GUARD> {
    pub closed spec fn heap(&self) -> Heap<u64, SIZE, GUARD> {
        self.heap
    }

    pub closed spec fn spec_count(&self) -> int {
        self.head as int
    }

    /// The words of the heap.
    pub open spec fn words(&self) -> Seq<u64> {
        self.heap()@
    }

    /// The transitions in use.
    pub open spec fn entries(&self) -> Seq<u64> {
        self.words().subrange(0, self.spec_count())
    }

    /// The words that the searches look at: the transitions in use and the word after them.
    pub open spec fn window(&self) -> Seq<u64> {
        self.words().subrange(0, self.spec_count() + 1)
    }

    /// The heap is sound and has room for the transitions in use.
    pub open spec fn wf(&self) -> bool {
        &&& self.heap().wf()
        &&& 0 <= self.spec_count() <= self.heap().cap()
    }

    proof fn lemma_at(&self)
        requires
            self.wf(),
        ensures
            forall|k: int| 0 <= k < self.heap().cap() ==> #[trigger] self.heap().at(k) == self.words()[k],
            self.heap().cap() <= 16384,
    {
        self.heap().lemma_slots_small();
        assert forall|k: int| 0 <= k < self.heap().cap() implies #[trigger] self.heap().at(k) == self.words()[k] by {
            assert(self.heap().slot(k) == k);
        }
    }

    /// A graph over a fresh heap, with no transitions.
    pub fn new(allocator: &mut Naive64Pages) -> (r: Option<Self>)
        ensures
            r is Some <==> has_room(old(allocator).spec_bitmap(), (SIZE::spec_measure() / 4096) as int),
            r is Some ==> took_first_run(
                old(allocator).spec_bitmap(),
                final(allocator).spec_bitmap(),
                (SIZE::spec_measure() / 4096) as int,
            ),
            match r {
                Some(g) => {
                    &&& g.wf()
                    &&& g.spec_count() == 0
                    &&& g.heap().cap() == SIZE::spec_measure() / 8
                    &&& g.words() == Seq::new(g.heap().cap(), |i: int| 0u64)
                },
                None => final(allocator).spec_bitmap() == old(allocator).spec_bitmap(),
            },
    {
        let heap: Heap<u64, SIZE, GUARD> = match Heap::allocate(allocator) {
            None => return None,
            Some(heap) => heap,
        };
        Some(Graph { heap, head: 0 })
    }

    pub fn graph_count(&self) -> (r: u16)
        ensures
            r == self.spec_count(),
    {
        self.head
    }

    /// Takes the next transition slot; returns its index.
    pub fn graph_inc(&mut self) -> (r: u16)
        requires
            old(self).wf(),
            old(self).spec_count() < old(self).heap().cap(),
        ensures
            final(self).wf(),
            r == old(self).spec_count(),
            final(self).spec_count() == old(self).spec_count() + 1,
            final(self).heap() == old(self).heap(),
            old(self).tail_clear() ==> final(self).tail_clear(),
    {
        let idx = self.head;
        self.head = self.head + 1;
        proof {
            if old(self).tail_clear() {
                assert forall|k: int| self.spec_count() <= k < self.words().len() implies #[trigger] self.words()[k]
                    == 0 by {
                    assert(old(self).words()[k] == 0);
                }
            }
        }
        idx
    }

    /// Writes the transition at `idx`.
    pub fn graph_set(&mut self, idx: u16, src: u16, via: (u8, u8), dst: u16, metadata: u16)
        requires
            old(self).wf(),
            idx < old(self).heap().cap(),
        ensures
            final(self).wf(),
            final(self).spec_count() == old(self).spec_count(),
            final(self).heap().cap() == old(self).heap().cap(),
            final(self).words() == old(self).words().update(idx as int, encode(src, via, dst, metadata)),
            old(self).tail_clear() && idx < old(self).spec_count() ==> final(self).tail_clear(),
    {
        proof {
            self.heap.lemma_slots_small();
        }
        let encoded: u64 = ((src as u64) << 48u64) | ((metadata as u64) << 16u64) | (dst as u64);
        let encoded: u64 = encoded | ((via.0 as u64) << 40u64) | ((via.1 as u64) << 32u64);
        self.heap.set0(encoded, idx as usize);
        proof {
            if old(self).tail_clear() && idx < old(self).spec_count() {
                assert forall|k: int| self.spec_count() <= k < self.words().len() implies #[trigger] self.words()[k]
                    == 0 by {
                    assert(old(self).words()[k] == 0);
                }
            }
        }
    }

    /// Appends a transition.
    pub fn graph_add(&mut self, src: u16, via: (u8, u8), dst: u16, metadata: u16)
        requires
            old(self).wf(),
            old(self).spec_count() < old(self).heap().cap(),
        ensures
            final(self).wf(),
            final(self).spec_count() == old(self).spec_count() + 1,
            final(self).heap().cap() == old(self).heap().cap(),
            final(self).words() == old(self).words().update(old(self).spec_count(), encode(src, via, dst, metadata)),
            old(self).tail_clear() ==> final(self).tail_clear(),
    {
        let idx = self.graph_inc();
        self.graph_set(idx, src, via, dst, metadata);
    }

    /// Replaces the metadata of the transition at `idx`.
    pub fn graph_set_meta(&mut self, idx: u16, metadata: u16)
        requires
            old(self).wf(),
            idx < old(self).heap().cap(),
        ensures
            final(self).wf(),
            final(self).spec_count() == old(self).spec_count(),
            final(self).heap().cap() == old(self).heap().cap(),
            final(self).words() == old(self).words().update(
                idx as int,
                with_meta(old(self).words()[idx as int], metadata),
            ),
            old(self).tail_clear() && idx < old(self).spec_count() ==> final(self).tail_clear(),
    {
        proof {
            self.heap.lemma_slots_small();
        }
        let value = self.heap.get0(idx as usize);
        let value = value & 0xffffffff0000ffffu64;
        let value = value | ((metadata as u64) << 16u64);
        self.heap.set0(value, idx as usize);
        proof {
            if old(self).tail_clear() && idx < old(self).spec_count() {
                assert forall|k: int| self.spec_count() <= k < self.words().len() implies #[trigger] self.words()[k]
                    == 0 by {
                    assert(old(self).words()[k] == 0);
                }
            }
        }
    }

    /// The transition at `idx`: `(src, (via.0, via.1), dst, meta)`.
    pub fn graph_at(&self, idx: u16) -> (r: (u16, (u8, u8), u16, u16))
        requires
            self.wf(),
            idx < self.heap().cap(),
        ensures
            r == decode(self.words()[idx as int]),
    {
        proof {
            self.heap.lemma_slots_small();
        }
        let val = self.heap.get0(idx as usize);
        let src = (val >> 48u64) as u16;
        let via0 = ((val >> 40u64) & 0xffu64) as u8;
        let via1 = ((val >> 32u64) & 0xffu64) as u8;
        let meta = ((val >> 16u64) & 0xffffu64) as u16;
        let dst = (val & 0xffffu64) as u16;
        (src, (via0, via1), dst, meta)
    }

    /// A copy of the transitions in use.
    pub fn graph_bytes(&self) -> (r: Vec<u64>)
        requires
            self.wf(),
        ensures
            r@ == self.entries(),
    {
        self.heap.as_bytes(self.head as usize)
    }

    fn word(&self, idx: u16) -> (r: u64)
        requires
            self.wf(),
            idx < self.heap().cap(),
        ensures
            r == self.words()[idx as int],
    {
        proof {
            self.heap.lemma_slots_small();
        }
        self.heap.get0(idx as usize)
    }

    /// Swaps the transitions at `left` and `right`.
    pub fn graph_swap(&mut self, left: u16, right: u16)
        requires
            old(self).wf(),
            left < old(self).heap().cap(),
            right < old(self).heap().cap(),
        ensures
            final(self).wf(),
            final(self).spec_count() == old(self).spec_count(),
            final(self).heap().cap() == old(self).heap().cap(),
            final(self).words() == old(self).words().update(left as int, old(self).words()[right as int]).update(
                right as int,
                old(self).words()[left as int],
            ),
    {
        proof {
            self.heap.lemma_slots_small();
        }
        let src = self.heap.get0(left as usize);
        let dst = self.heap.get0(right as usize);
        self.heap.set0(dst, left as usize);
        self.heap.set0(src, right as usize);
    }

    /// Whether the transition at `left` sorts after the one at `right`.
    pub fn graph_greater(&self, left: u16, right: u16) -> (r: bool)
        requires
            self.wf(),
            left < self.heap().cap(),
            right < self.heap().cap(),
        ensures
            r == (key(self.words()[left as int]) > key(self.words()[right as int])),
    {
        let l = self.graph_at(left);
        let r = self.graph_at(right);
        proof {
            lemma_key_order(self.words()[left as int], self.words()[right as int]);
        }
        l.0 > r.0 || l.0 == r.0 && l.1.0 > r.1.0
    }

    /// Sifts the transition at `start` down the heap of the first `n` transitions, whose nodes after
    /// `start` already hold the heap order.
    fn graph_heapify(&mut self, n: u16, start: u16)
        requires
            old(self).wf(),
            start < n <= old(self).heap().cap(),
            heap_ok(old(self).words(), start + 1, n as int),
        ensures
            final(self).wf(),
            final(self).spec_count() == old(self).spec_count(),
            final(self).heap().cap() == old(self).heap().cap(),
            heap_ok(final(self).words(), start as int, n as int),
            final(self).words().subrange(0, n as int).to_multiset() == old(self).words().subrange(0, n as int).to_multiset(),
            forall|k: int| 0 <= k < final(self).words().len() && !(start <= k < n) ==> #[trigger] final(self).words()[k] == old(self).words()[k],
            final(self).words().len() == old(self).words().len(),
    {
        let mut i = start;
        loop
            invariant_except_break
                start <= i < n,
                forall|k: int, c: int|
                    start <= k < n && k != i && 0 <= c < n && (c == 2 * k + 1 || c == 2 * k + 2) ==> key(
                        #[trigger] self.words()[k],
                    ) >= key(#[trigger] self.words()[c]),
                i > start ==> forall|c: int|
                    0 <= c < n && (c == 2 * i + 1 || c == 2 * i + 2) ==> key(self.words()[(i - 1) / 2]) >= key(
                        #[trigger] self.words()[c],
                    ),
            invariant
                self.wf(),
                start < n <= self.heap().cap(),
                n <= 16384,
                self.spec_count() == old(self).spec_count(),
                self.heap().cap() == old(self).heap().cap(),
                self.words().len() == old(self).words().len(),
                self.words().subrange(0, n as int).to_multiset() == old(self).words().subrange(0, n as int).to_multiset(),
                forall|k: int| 0 <= k < self.words().len() && !(start <= k < n) ==> #[trigger] self.words()[k] == old(self).words()[k],
            ensures
                heap_ok(self.words(), start as int, n as int),
            decreases n - i,
        {
            let mut largest = i;
            let left = 2 * i + 1;
            let right = 2 * i + 2;
            if left < n && self.graph_greater(left, largest) {
                largest = left;
            }
            if right < n && self.graph_greater(right, largest) {
                largest = right;
            }
            if largest != i {
                let ghost before = self.words();
                self.graph_swap(i, largest);
                proof {
                    lemma_swap_multiset(before, i as int, largest as int, n as int);
                    assert forall|k: int, c: int|
                        start <= k < n && k != largest && 0 <= c < n && (c == 2 * k + 1 || c == 2 * k + 2) implies key(
                            #[trigger] self.words()[k],
                        ) >= key(#[trigger] self.words()[c]) by {
                        if k == i {
                        } else if c == largest {
                            assert(k == i);
                        } else if c == i {
                            assert(k == (i - 1) / 2);
                        }
                    }
                    assert forall|c: int|
                        0 <= c < n && (c == 2 * largest + 1 || c == 2 * largest + 2) implies key(
                            self.words()[(largest - 1) / 2],
                        ) >= key(#[trigger] self.words()[c]) by {
                        assert((largest - 1) / 2 == i);
                        assert(key(before[largest as int]) >= key(before[c]));
                    }
                }
                i = largest;
            } else {
                proof {
                    assert forall|k: int, c: int|
                        start <= k < n && 0 <= c < n && (c == 2 * k + 1 || c == 2 * k + 2) implies key(
                            #[trigger] self.words()[k],
                        ) >= key(#[trigger] self.words()[c]) by {}
                }
                break;
            }
        }
    }

    /// Sorts the transitions in use by source, then by the start of their byte range (heap sort).
    pub fn graph_sort(&mut self)
        requires
            old(self).wf(),
        ensures
            final(self).wf(),
            final(self).spec_count() == old(self).spec_count(),
            final(self).heap().cap() == old(self).heap().cap(),
            sorted_by_key(final(self).entries()),
            final(self).entries().to_multiset() == old(self).entries().to_multiset(),
            final(self).words().len() == old(self).words().len(),
            forall|k: int| old(self).spec_count() <= k < old(self).words().len() ==> #[trigger] final(self).words()[k] == old(self).words()[k],
    {
        proof {
            self.lemma_at();
        }
        let n = self.head;
        let mut i = n / 2;
        while i > 0
            invariant
                self.wf(),
                n == self.spec_count(),
                self.heap().cap() == old(self).heap().cap(),
                self.words().len() == old(self).words().len(),
                i <= n / 2,
                n <= 16384,
                heap_ok(self.words(), i as int, n as int),
                self.words().subrange(0, n as int).to_multiset() == old(self).words().subrange(0, n as int).to_multiset(),
                forall|k: int| n <= k < self.words().len() ==> #[trigger] self.words()[k] == old(self).words()[k],
            decreases i,
        {
            i = i - 1;
            proof {
                assert forall|k: int, c: int|
                    i + 1 <= k < n && 0 <= c < n && (c == 2 * k + 1 || c == 2 * k + 2) implies key(
                        #[trigger] self.words()[k],
                    ) >= key(#[trigger] self.words()[c]) by {
                    assert(k >= i + 1);
                }
            }
            self.graph_heapify(n, i);
        }
        let mut m = n;
        while m > 1
            invariant
                self.wf(),
                n == self.spec_count(),
                self.heap().cap() == old(self).heap().cap(),
                self.words().len() == old(self).words().len(),
                n <= 16384,
                1 <= m <= n || n == 0,
                m <= n,
                heap_ok(self.words(), 0, m as int),
                forall|a: int, b: int| 0 <= a < m <= b < n ==> key(#[trigger] self.words()[a]) <= key(#[trigger] self.words()[b]),
                forall|a: int, b: int| m <= a < b < n ==> key(#[trigger] self.words()[a]) <= key(#[trigger] self.words()[b]),
                self.words().subrange(0, n as int).to_multiset() == old(self).words().subrange(0, n as int).to_multiset(),
                forall|k: int| n <= k < self.words().len() ==> #[trigger] self.words()[k] == old(self).words()[k],
            decreases m,
        {
            m = m - 1;
            let ghost before = self.words();
            proof {
                lemma_root_max(before, (m + 1) as int);
            }
            self.graph_swap(0, m);
            proof {
                lemma_swap_multiset(before, 0, m as int, n as int);
                assert forall|k: int, c: int|
                    1 <= k < m && 0 <= c < m && (c == 2 * k + 1 || c == 2 * k + 2) implies key(
                        #[trigger] self.words()[k],
                    ) >= key(#[trigger] self.words()[c]) by {
                    assert(key(before[k]) >= key(before[c]));
                }
            }
            if m > 0 {
                let ghost mid = self.words();
                self.graph_heapify(m, 0);
                proof {
                    broadcast use vstd::seq_lib::group_to_multiset_ensures;

                    assert forall|a: int| 0 <= a < m implies key(#[trigger] self.words()[a]) <= key(self.words()[m as int]) by {
                        let x = self.words()[a];
                        assert(self.words().subrange(0, m as int)[a] == x);
                        assert(self.words().subrange(0, m as int).contains(x));
                        assert(self.words().subrange(0, m as int).to_multiset().count(x) > 0);
                        assert(mid.subrange(0, m as int).to_multiset().count(x) > 0);
                        assert(mid.subrange(0, m as int).contains(x));
                        let j = choose|j: int| 0 <= j < m && mid.subrange(0, m as int)[j] == x;
                        assert(mid[j] == x);
                    }
                    assert forall|a: int, b: int| 0 <= a < m <= b < n implies key(#[trigger] self.words()[a]) <= key(
                        #[trigger] self.words()[b],
                    ) by {
                        let x = self.words()[a];
                        assert(self.words().subrange(0, m as int)[a] == x);
                        assert(self.words().subrange(0, m as int).contains(x));
                        assert(self.words().subrange(0, m as int).to_multiset().count(x) > 0);
                        assert(mid.subrange(0, m as int).contains(x));
                        let j = choose|j: int| 0 <= j < m && mid.subrange(0, m as int)[j] == x;
                        assert(mid[j] == x);
                    }
                    assert(self.words().subrange(0, n as int) =~= self.words().subrange(0, m as int) + self.words().subrange(m as int, n as int));
                    assert(mid.subrange(0, n as int) =~= mid.subrange(0, m as int) + mid.subrange(m as int, n as int));
                    assert(self.words().subrange(m as int, n as int) =~= mid.subrange(m as int, n as int));
                    vstd::seq_lib::lemma_multiset_commutative(self.words().subrange(0, m as int), self.words().subrange(m as int, n as int));
                    vstd::seq_lib::lemma_multiset_commutative(mid.subrange(0, m as int), mid.subrange(m as int, n as int));
                }
            }
        }
        proof {
            assert forall|a: int, b: int| 0 <= a < b < n implies key(#[trigger] self.entries()[a]) <= key(#[trigger] self.entries()[b]) by {
                assert(self.entries()[a] == self.words()[a]);
                assert(self.entries()[b] == self.words()[b]);
                if a == 0 && m == 1 {
                }
            }
        }
    }

    /// Whether the transitions in use are in key order, each byte range is well formed, and the
    /// ranges of one source do not overlap.
    pub open spec fn ranges_sorted(&self) -> bool {
        let s = self.entries();
        &&& sorted_by_key(s)
        &&& forall|i: int| 0 <= i < s.len() ==> decode(#[trigger] s[i]).1.0 <= decode(s[i]).1.1
        &&& forall|i: int, j: int|
            0 <= i < j < s.len() && decode(#[trigger] s[i]).0 == decode(#[trigger] s[j]).0 ==> decode(s[i]).1.1 < decode(
                s[j],
            ).1.0
    }

    /// Transitions that leave the states in the order of their indices, each with a well formed
    /// byte range, are in key order with disjoint ranges.
    pub proof fn lemma_numbered_sorted(&self)
        requires
            numbered(self.entries()),
            ranges_wf(self.entries()),
        ensures
            self.ranges_sorted(),
    {
        let s = self.entries();
        assert forall|i: int, j: int| 0 <= i < j < s.len() implies key(#[trigger] s[i]) <= key(#[trigger] s[j]) by {
            lemma_key_order(s[i], s[j]);
        }
    }

    /// Whether every word from the transitions in use on is zero, as `new` leaves them and as
    /// appending keeps them.
    pub open spec fn tail_clear(&self) -> bool {
        forall|k: int| self.spec_count() <= k < self.words().len() ==> #[trigger] self.words()[k] == 0
    }

    /// What `graph_find` gives for `src` and `via`. A result comes from the window. Over sorted
    /// transitions with disjoint ranges: the transition whose range holds `via` gives its
    /// destination and metadata; with none, the result is `None`, but for the search on no
    /// transitions of `(0, 0)`, which reads the zero word after them.
    pub open spec fn find_result(&self, src: u16, via: u8, r: Option<(u16, u16)>) -> bool {
        let n = self.spec_count();
        let e = self.entries();
        &&& match r {
            Some((dst, meta)) => exists|k: int|
                0 <= k < self.window().len() && #[trigger] matches(self.window()[k], src, via) && decode(
                    self.window()[k],
                ).2 == dst && decode(self.window()[k]).3 == meta,
            None => self.ranges_sorted() ==> forall|k: int| 0 <= k < n ==> !#[trigger] matches(e[k], src, via),
        }
        &&& self.ranges_sorted() ==> forall|k: int|
            0 <= k < n && #[trigger] matches(e[k], src, via) ==> r == Some((decode(e[k]).2, decode(e[k]).3))
        &&& self.ranges_sorted() && self.tail_clear() && (forall|k: int| 0 <= k < n ==> !#[trigger] matches(e[k], src, via))
            ==> r == if n == 0 && src == 0 && via == 0 {
            Some((0u16, 0u16))
        } else {
            None
        }
    }

    /// What `graph_find_all` gives for `src`. A result is a run of transitions from `src` in the
    /// window that cannot be widened. Over sorted transitions: the run holds every transition
    /// from `src`; with none, the result is `None`, but for the search of source 0 on no
    /// transitions, which reads the zero word after them.
    pub open spec fn find_all_result(&self, src: u16, r: Option<(u16, u16)>) -> bool {
        let n = self.spec_count();
        let e = self.entries();
        let w = self.window();
        &&& match r {
            Some((lo, hi)) => {
                &&& lo <= hi < w.len()
                &&& forall|k: int| lo <= k <= hi ==> decode(#[trigger] w[k]).0 == src
                &&& lo > 0 ==> decode(w[lo - 1]).0 != src
                &&& hi + 1 < w.len() ==> decode(w[hi + 1]).0 != src
            },
            None => sorted_by_key(e) ==> forall|k: int| 0 <= k < n ==> decode(#[trigger] e[k]).0 != src,
        }
        &&& sorted_by_key(e) ==> forall|k: int|
            0 <= k < n && decode(#[trigger] e[k]).0 == src ==> (r matches Some((lo, hi)) && lo <= k <= hi)
        &&& sorted_by_key(e) && self.tail_clear() && (forall|k: int| 0 <= k < n ==> decode(#[trigger] e[k]).0 != src)
            ==> r == if n == 0 && src == 0 {
            Some((0u16, 0u16))
        } else {
            None
        }
    }

    /// Binary search over the transitions in use and the word after them for the transition from
    /// `src` whose byte range holds `via`; returns its destination and metadata.
    pub fn graph_find(&self, src: u16, via: u8) -> (r: Option<(u16, u16)>)
        requires
            self.wf(),
            self.spec_count() < self.heap().cap(),
        ensures
            self.find_result(src, via, r),
    {
        let ghost s = self.window();
        let ghost n = self.spec_count();
        proof {
            lemma_decode_zero();
            assert forall|k: int| 0 <= k < n implies #[trigger] self.entries()[k] == s[k] by {}
        }
        let mut low: i32 = 0;
        let mut high: i32 = self.head as i32;
        while low <= high
            invariant
                self.wf(),
                self.spec_count() < self.heap().cap(),
                s == self.window(),
                n == self.spec_count(),
                s.len() == n + 1,
                n < 16384,
                forall|k: int| 0 <= k < n ==> #[trigger] self.entries()[k] == s[k],
                decode(0u64) == (0u16, (0u8, 0u8), 0u16, 0u16),
                0 <= low,
                high <= n,
                low <= high + 1,
                self.ranges_sorted() ==> forall|k: int| 0 <= k < low && k < n ==> !#[trigger] matches(s[k], src, via),
                self.ranges_sorted() ==> forall|k: int| high < k < n ==> !#[trigger] matches(s[k], src, via),
                n == 0 && matches(s[0], src, via) ==> low == 0 && high == 0,
                src == 0 && via == 0 ==> low == 0,
            decreases high - low + 1,
        {
            proof {
                self.lemma_at();
            }
            let idx = low + (high - low) / 2;
            let val = self.graph_at(idx as u16);
            assert(decode(s[idx as int]) == val);
            if src == val.0 {
                if via >= val.1.0 && via <= val.1.1 {
                    assert(matches(s[idx as int], src, via));
                    proof {
                        if self.ranges_sorted() {
                            assert forall|k: int| 0 <= k < n && #[trigger] matches(s[k], src, via) implies k == idx by {
                                if k != idx {
                                    assert(idx < n);
                                    if k < idx {
                                        assert(decode(self.entries()[k]).0 == decode(self.entries()[idx as int]).0);
                                    } else {
                                        assert(decode(self.entries()[idx as int]).0 == decode(self.entries()[k]).0);
                                    }
                                }
                            }
                        }
                        if idx == n {
                            assert(self.tail_clear() ==> s[n] == 0);
                        }
                    }
                    return Some((val.2, val.3));
                }
                if via > val.1.0 {
                    proof {
                        if self.ranges_sorted() && idx < n {
                            assert forall|k: int| 0 <= k < idx + 1 && k < n implies !#[trigger] matches(s[k], src, via) by {
                                if k < idx {
                                    assert(key(self.entries()[k]) <= key(self.entries()[idx as int]));
                                    lemma_key_order(s[k], s[idx as int]);
                                }
                            }
                        }
                    }
                    low = idx + 1;
                } else {
                    proof {
                        if self.ranges_sorted() && idx < n {
                            assert forall|k: int| idx <= k < n implies !#[trigger] matches(s[k], src, via) by {
                                if k > idx {
                                    assert(key(self.entries()[idx as int]) <= key(self.entries()[k]));
                                    lemma_key_order(s[k], s[idx as int]);
                                    lemma_key_order(s[idx as int], s[k]);
                                }
                            }
                        }
                    }
                    high = idx - 1;
                }
            } else {
                if src > val.0 {
                    proof {
                        if self.ranges_sorted() && idx < n {
                            assert forall|k: int| 0 <= k < idx + 1 && k < n implies !#[trigger] matches(s[k], src, via) by {
                                if k < idx {
                                    assert(key(self.entries()[k]) <= key(self.entries()[idx as int]));
                                    lemma_key_order(s[idx as int], s[k]);
                                }
                            }
                        }
                    }
                    low = idx + 1;
                } else {
                    proof {
                        if self.ranges_sorted() && idx < n {
                            assert forall|k: int| idx <= k < n implies !#[trigger] matches(s[k], src, via) by {
                                if k > idx {
                                    assert(key(self.entries()[idx as int]) <= key(self.entries()[k]));
                                    lemma_key_order(s[k], s[idx as int]);
                                }
                            }
                        }
                    }
                    high = idx - 1;
                }
            }
        }
        proof {
            if n == 0 && self.tail_clear() && src == 0 && via == 0 {
                assert(s[0] == 0);
                assert(matches(s[0], src, via));
            }
        }
        None
    }

    /// Binary search over the transitions in use and the word after them for a transition from
    /// `src`, then widens to the neighbours with the same source; returns the first and last
    /// index of that run.
    pub fn graph_find_all(&self, src: u16) -> (r: Option<(u16, u16)>)
        requires
            self.wf(),
            self.spec_count() < self.heap().cap(),
        ensures
            self.find_all_result(src, r),
    {
        let ghost s = self.window();
        let ghost n = self.spec_count();
        proof {
            lemma_decode_zero();
            assert forall|k: int| 0 <= k < n implies #[trigger] self.entries()[k] == s[k] by {}
        }
        let mut low: i32 = 0;
        let mut high: i32 = self.head as i32;
        let mut found: Option<u16> = None;
        while low <= high
            invariant_except_break
                found is None,
            invariant
                self.wf(),
                self.spec_count() < self.heap().cap(),
                s == self.window(),
                n == self.spec_count(),
                s.len() == n + 1,
                n < 16384,
                forall|k: int| 0 <= k < n ==> #[trigger] self.entries()[k] == s[k],
                decode(0u64) == (0u16, (0u8, 0u8), 0u16, 0u16),
                0 <= low,
                high <= n,
                low <= high + 1,
                sorted_by_key(self.entries()) ==> forall|k: int| 0 <= k < low && k < n ==> decode(#[trigger] s[k]).0 != src,
                sorted_by_key(self.entries()) ==> forall|k: int| high < k < n ==> decode(#[trigger] s[k]).0 != src,
                n == 0 && decode(s[0]).0 == src ==> low == 0 && high == 0,
                src == 0 ==> low == 0,
            ensures
                match found {
                    Some(idx) => idx < s.len() && decode(s[idx as int]).0 == src && (idx == n ==> low == n),
                    None => {
                        &&& sorted_by_key(self.entries()) ==> forall|k: int| 0 <= k < n ==> decode(#[trigger] s[k]).0 != src
                        &&& !(n == 0 && decode(s[0]).0 == src)
                    },
                },
                src == 0 ==> low == 0,
            decreases high - low + 1,
        {
            proof {
                self.lemma_at();
            }
            let idx = low + (high - low) / 2;
            let val = self.graph_at(idx as u16);
            if src == val.0 {
                found = Some(idx as u16);
                break;
            } else {
                if src > val.0 {
                    proof {
                        if sorted_by_key(self.entries()) && idx < n {
                            assert forall|k: int| 0 <= k < idx + 1 && k < n implies decode(#[trigger] s[k]).0 != src by {
                                if k < idx {
                                    assert(key(self.entries()[k]) <= key(self.entries()[idx as int]));
                                    lemma_key_order(s[k], s[idx as int]);
                                }
                            }
                        }
                    }
                    low = idx + 1;
                } else {
                    proof {
                        if sorted_by_key(self.entries()) && idx < n {
                            assert forall|k: int| idx <= k < n implies decode(#[trigger] s[k]).0 != src by {
                                if k > idx {
                                    assert(key(self.entries()[idx as int]) <= key(self.entries()[k]));
                                    lemma_key_order(s[k], s[idx as int]);
                                }
                            }
                        }
                    }
                    high = idx - 1;
                }
            }
        }
        match found {
            None => {
                proof {
                    if n == 0 && self.tail_clear() && src == 0 {
                        assert(s[0] == 0);
                    }
                }
                None
            },
            Some(idx) => {
                proof {
                    self.lemma_at();
                }
                let mut lo = idx;
                let mut hi = idx;
                let found_src = self.graph_at(idx).0;
                while lo > 0
                    invariant_except_break
                        lo > 0 ==> true,
                    invariant
                        self.wf(),
                        self.spec_count() < self.heap().cap(),
                        s == self.window(),
                        s.len() == self.spec_count() + 1,
                        lo <= idx < s.len(),
                        found_src == src,
                        forall|k: int| lo <= k <= idx ==> decode(#[trigger] s[k]).0 == src,
                    ensures
                        lo > 0 ==> decode(s[lo - 1]).0 != src,
                    decreases lo,
                {
                    let prev = self.graph_at(lo - 1);
                    if prev.0 == found_src && lo > 0 {
                        lo = lo - 1;
                    } else {
                        break;
                    }
                }
                while hi < self.head
                    invariant
                        self.wf(),
                        self.spec_count() < self.heap().cap(),
                        s == self.window(),
                        s.len() == self.spec_count() + 1,
                        lo <= idx <= hi < s.len(),
                        found_src == src,
                        forall|k: int| lo <= k <= hi ==> decode(#[trigger] s[k]).0 == src,
                    ensures
                        hi + 1 < s.len() ==> decode(s[hi + 1]).0 != src,
                    decreases self.spec_count() - hi,
                {
                    let next = self.graph_at(hi + 1);
                    if next.0 == found_src && hi < self.head {
                        hi = hi + 1;
                    } else {
                        break;
                    }
                }
                proof {
                    if sorted_by_key(self.entries()) {
                        assert forall|k: int| 0 <= k < n && decode(#[trigger] self.entries()[k]).0 == src implies lo <= k
                            <= hi by {
                            assert(s[k] == self.entries()[k]);
                            if idx == n {
                                assert(decode(s[k]).0 != src);
                            } else if k < lo {
                                lemma_same_source_between(self.entries(), k, (lo - 1) as int, idx as int);
                            } else if k > hi {
                                lemma_same_source_between(self.entries(), idx as int, (hi + 1) as int, k);
                            }
                        }
                    }
                    if self.tail_clear() && src == 0 && idx == n {
                        assert(n == 0);
                        assert(lo == 0 && hi == 0);
                    }
                    if sorted_by_key(self.entries()) && self.tail_clear() && (forall|k: int| 0 <= k < n ==> decode(#[trigger] self.entries()[k]).0 != src) {
                        assert(idx == n) by {
                            if idx < n {
                                assert(decode(self.entries()[idx as int]).0 == src);
                            }
                        }
                        assert(s[n] == 0);
                    }
                }
                Some((lo, hi))
            },
        }
    }
}

/// The zero word is the transition from state 0 on byte 0 to state 0, without metadata.
proof fn lemma_decode_zero()
    ensures
        decode(0u64) == (0u16, (0u8, 0u8), 0u16, 0u16),
{
    assert((0u64 >> 48u64) as u16 == 0 && (((0u64 >> 40u64) & 0xff) as u8) == 0 && (((0u64 >> 32u64) & 0xff) as u8)
        == 0 && ((0u64 & 0xffff) as u16) == 0 && (((0u64 >> 16u64) & 0xffff) as u16) == 0) by (bit_vector);
}

/// In words sorted by key, a transition between two from the same source is from that source.
proof fn lemma_same_source_between(s: Seq<u64>, i: int, j: int, k: int)
    requires
        sorted_by_key(s),
        0 <= i <= j <= k < s.len(),
        decode(s[i]).0 == decode(s[k]).0,
    ensures
        decode(s[j]).0 == decode(s[i]).0,
{
    if i < j {
        assert(key(s[i]) <= key(s[j]));
        lemma_key_order(s[i], s[j]);
    }
    if j < k {
        assert(key(s[j]) <= key(s[k]));
        lemma_key_order(s[j], s[k]);
    }
}

} // verus!
