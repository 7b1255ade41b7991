use vstd::prelude::*;
use std::marker::PhantomData;

use super::pages::{AllocatorBytes, Naive64Pages, first_run, has_room, run_free, taken, took_first_run};

verus! {

/// A type-level choice of how many bytes a heap takes from the allocator.
pub trait AllocatorSize {
    spec fn spec_measure() -> nat;

    fn measure() -> (r: usize)
        ensures
            r == Self::spec_measure(),
    ;

    fn encode() -> (r: AllocatorBytes)
        ensures
            r.spec_bytes() == Self::spec_measure(),
            r.spec_pages() == Self::spec_measure() / 4096,
    ;
}

pub struct B4096 {}

pub struct B8192 {}

pub struct B16384 {}

impl AllocatorSize for B4096 {
    open spec fn spec_measure() -> nat {
        4096
    }

    fn measure() -> (r: usize) {
        4096
    }

    fn encode() -> (r: AllocatorBytes) {
        AllocatorBytes::B4096
    }
}

impl AllocatorSize for B8192 {
    open spec fn spec_measure() -> nat {
        8192
    }

    fn measure() -> (r: usize) {
        8192
    }

    fn encode() -> (r: AllocatorBytes) {
        AllocatorBytes::B8192
    }
}

impl AllocatorSize for B16384 {
    open spec fn spec_measure() -> nat {
        16384
    }

    fn measure() -> (r: usize) {
        16384
    }

    fn encode() -> (r: AllocatorBytes) {
        AllocatorBytes::B16384
    }
}

/// A type-level choice of what happens to an offset beyond the end of a heap: it either wraps
/// around (an offset is taken modulo the number of words), or it must not happen.
pub trait Guard {
    spec fn spec_wrapping() -> bool;

    fn wrapping() -> (r: bool)
        ensures
            r == Self::spec_wrapping(),
    ;
}

pub struct GuardWrapping;

pub struct GuardDisabled;

pub struct GuardSegfault;

impl Guard for GuardWrapping {
    open spec fn spec_wrapping() -> bool {
        true
    }

    fn wrapping() -> (r: bool) {
        true
    }
}

impl Guard for GuardDisabled {
    open spec fn spec_wrapping() -> bool {
        false
    }

    fn wrapping() -> (r: bool) {
        false
    }
}

impl Guard for GuardSegfault {
    open spec fn spec_wrapping() -> bool {
        false
    }

    fn wrapping() -> (r: bool) {
        false
    }
}

/// The word types that a heap holds.
pub trait Word: Copy {
    spec fn spec_width() -> nat;

    fn width() -> (r: usize)
        ensures
            r == Self::spec_width(),
            r == 1 || r == 2 || r == 8,
    ;

    spec fn spec_zero() -> Self;

    fn zero() -> (r: Self)
        ensures
            r == Self::spec_zero(),
    ;
}

impl Word for u8 {
    open spec fn spec_zero() -> Self {
        0
    }

    open spec fn spec_width() -> nat {
        1
    }

    fn width() -> (r: usize) {
        1
    }

    fn zero() -> (r: Self) {
        0
    }
}

impl Word for u16 {
    open spec fn spec_zero() -> Self {
        0
    }

    open spec fn spec_width() -> nat {
        2
    }

    fn width() -> (r: usize) {
        2
    }

    fn zero() -> (r: Self) {
        0
    }
}

impl Word for u64 {
    open spec fn spec_zero() -> Self {
        0
    }

    open spec fn spec_width() -> nat {
        8
    }

    fn width() -> (r: usize) {
        8
    }

    fn zero() -> (r: Self) {
        0
    }
}

/// The numbers of words that a heap can hold.
pub open spec fn heap_capacity(c: nat) -> bool {
    c == 512 || c == 1024 || c == 2048 || c == 4096 || c == 8192 || c == 16384
}

proof fn lemma_mask_is_mod(off: usize, cap: usize)
    requires
        heap_capacity(cap as nat),
    ensures
        off & ((cap - 1) as usize) == off % cap,
{
    if cap == 512 {
        assert(off & 511usize == off % 512) by (bit_vector);
    } else if cap == 1024 {
        assert(off & 1023usize == off % 1024) by (bit_vector);
    } else if cap == 2048 {
        assert(off & 2047usize == off % 2048) by (bit_vector);
    } else if cap == 4096 {
        assert(off & 4095usize == off % 4096) by (bit_vector);
    } else if cap == 8192 {
        assert(off & 8191usize == off % 8192) by (bit_vector);
    } else {
        assert(off & 16383usize == off % 16384) by (bit_vector);
    }
}

/// A block of words taken from the page allocator. Every access goes through the guard: with a
/// wrapping guard an offset is taken modulo the number of words, otherwise it must be in range.
pub struct Heap<T, SIZE, GUARD> {
    words: Vec<T>,
    wrapping: bool,
    page: usize,
    size: PhantomData<SIZE>,
    guard: PhantomData<GUARD>,
}

impl<T: Word, SIZE: AllocatorSize, GUARD: Guard> Heap<T, SIZE, GUARD> {
    pub closed spec fn view(&self) -> Seq<T> {
        self.words@
    }

    pub open spec fn cap(&self) -> nat {
        self@.len()
    }

    pub closed spec fn is_wrapping(&self) -> bool {
        self.wrapping
    }

    /// The byte offset, in the allocator's pages, of the block this heap took.
    pub closed spec fn spec_page(&self) -> nat {
        self.page as nat
    }

    pub open spec fn wf(&self) -> bool {
        &&& heap_capacity(self.cap())
        &&& self.is_wrapping() == GUARD::spec_wrapping()
    }

    /// Where in the heap a word at offset `off` lives.
    pub open spec fn slot(&self, off: int) -> int {
        if self.is_wrapping() {
            off % (self.cap() as int)
        } else {
            off
        }
    }

    /// Whether an offset may be used: a wrapping heap takes any offset.
    pub open spec fn reaches(&self, off: int) -> bool {
        0 <= off && (self.is_wrapping() || off < self.cap())
    }

    /// The word at offset `off`.
    pub open spec fn at(&self, off: int) -> T {
        self@[self.slot(off)]
    }

    /// The heap after writing `val` at offset `off`.
    pub open spec fn spec_put(&self, off: int, val: T) -> Seq<T> {
        self@.update(self.slot(off), val)
    }

    pub proof fn lemma_slot(&self, off: int)
        requires
            self.wf(),
            self.reaches(off),
        ensures
            0 <= self.slot(off) < self.cap(),
            0 <= off < self.cap() ==> self.slot(off) == off,
    {
        if self.is_wrapping() {
            vstd::arithmetic::div_mod::lemma_mod_bound(off, self.cap() as int);
            if off < self.cap() {
                vstd::arithmetic::div_mod::lemma_small_mod(off as nat, self.cap());
            }
        }
    }

    /// Two offsets less than a heap's length apart live in different slots.
    pub proof fn lemma_slot_injective(&self, a: int, b: int)
        requires
            self.wf(),
            self.reaches(a),
            self.reaches(b),
            a != b,
            a - b < self.cap(),
            b - a < self.cap(),
        ensures
            self.slot(a) != self.slot(b),
    {
        if self.is_wrapping() {
            let c = self.cap() as int;
            vstd::arithmetic::div_mod::lemma_fundamental_div_mod(a, c);
            vstd::arithmetic::div_mod::lemma_fundamental_div_mod(b, c);
            vstd::arithmetic::div_mod::lemma_mod_bound(a, c);
            vstd::arithmetic::div_mod::lemma_mod_bound(b, c);
            if a % c == b % c {
                let qa = a / c;
                let qb = b / c;
                assert(a - b == (qa - qb) * c) by (nonlinear_arith)
                    requires
                        a == c * qa + a % c,
                        b == c * qb + b % c,
                        a % c == b % c,
                ;
                if qa > qb {
                    assert((qa - qb) * c >= c) by (nonlinear_arith)
                        requires
                            qa - qb >= 1,
                            c > 0,
                    ;
                } else if qa < qb {
                    assert((qb - qa) * c >= c) by (nonlinear_arith)
                        requires
                            qb - qa >= 1,
                            c > 0,
                    ;
                    assert(b - a == (qb - qa) * c) by (nonlinear_arith)
                        requires
                            a - b == (qa - qb) * c,
                    ;
                }
            }
        }
    }

    /// Offsets inside the heap are their own slots.
    pub proof fn lemma_slots_small(&self)
        requires
            self.wf(),
        ensures
            forall|off: int| 0 <= off < self.cap() ==> #[trigger] self.slot(off) == off,
    {
        assert forall|off: int| 0 <= off < self.cap() implies #[trigger] self.slot(off) == off by {
            self.lemma_slot(off);
        }
    }

    /// Takes a block of `SIZE` bytes from the allocator, all words zero.
    pub fn allocate(allocator: &mut Naive64Pages) -> (r: Option<Self>)
        ensures
            r is Some <==> has_room(old(allocator).spec_bitmap(), (SIZE::spec_measure() / 4096) as int),
            r is Some ==> took_first_run(
                old(allocator).spec_bitmap(),
                final(allocator).spec_bitmap(),
                (SIZE::spec_measure() / 4096) as int,
            ),
            match r {
                Some(h) => {
                    &&& h.wf()
                    &&& h.cap() == SIZE::spec_measure() / T::spec_width()
                    &&& h@ == Seq::new(h.cap(), |i: int| T::spec_zero())
                    &&& exists|i: int|
                        {
                            &&& #[trigger] first_run(
                                old(allocator).spec_bitmap(),
                                i,
                                (SIZE::spec_measure() / 4096) as int,
                            )
                            &&& h.spec_page() == i * 4096
                            &&& final(allocator).spec_bitmap() == taken(
                                old(allocator).spec_bitmap(),
                                i,
                                (SIZE::spec_measure() / 4096) as int,
                            )
                        }
                },
                None => {
                    &&& final(allocator).spec_bitmap() == old(allocator).spec_bitmap()
                    &&& forall|k: int|
                        0 <= k <= 64 - SIZE::spec_measure() / 4096 ==> !#[trigger] run_free(
                            old(allocator).spec_bitmap(),
                            k,
                            (SIZE::spec_measure() / 4096) as int,
                        )
                },
            },
    {
        let page = match allocator.allocate(SIZE::encode()) {
            None => return None,
            Some(page) => page,
        };
        let count = SIZE::measure() / T::width();
        let mut words: Vec<T> = Vec::new();
        let zero = T::zero();
        while words.len() < count
            invariant
                words.len() <= count,
                forall|i: int| 0 <= i < words.len() ==> words@[i] == zero,
            decreases count - words.len(),
        {
            words.push(zero);
        }
        Some(Heap { words, wrapping: GUARD::wrapping(), page, size: PhantomData, guard: PhantomData })
    }

    /// The number of words in the heap.
    pub fn capacity(&self) -> (r: usize)
        requires
            self.wf(),
        ensures
            r == self.cap(),
    {
        self.words.len()
    }

    /// A copy of the first `len` words.
    pub fn as_bytes(&self, len: usize) -> (r: Vec<T>)
        requires
            len <= self.cap(),
        ensures
            r@ == self@.subrange(0, len as int),
    {
        let mut out: Vec<T> = Vec::new();
        let mut i: usize = 0;
        while i < len
            invariant
                i <= len <= self.cap(),
                self.cap() == self.words@.len(),
                out@ == self@.subrange(0, i as int),
            decreases len - i,
        {
            out.push(self.words[i]);
            i = i + 1;
        }
        out
    }

    fn deref_get(&self, off: usize) -> (r: T)
        requires
            off < self.cap(),
        ensures
            r == self@[off as int],
    {
        self.words[off]
    }

    fn deref_set(&mut self, off: usize, val: T)
        requires
            off < old(self).cap(),
        ensures
            final(self)@ == old(self)@.update(off as int, val),
            final(self).cap() == old(self).cap(),
            final(self).is_wrapping() == old(self).is_wrapping(),
            final(self).spec_page() == old(self).spec_page(),
    {
        self.words.set(off, val);
    }

    /// Where the word at offset `off` lives.
    pub fn guard0(&self, off: usize) -> (r: usize)
        requires
            self.wf(),
        ensures
            r == self.slot(off as int),
            self.reaches(off as int) ==> r < self.cap(),
    {
        if self.wrapping {
            proof {
                lemma_mask_is_mod(off, self.words@.len() as usize);
            }
            off & (self.words.len() - 1)
        } else {
            off
        }
    }

    pub fn guard1(&self, off: usize, inc: usize) -> (r: usize)
        requires
            self.wf(),
            off + inc <= usize::MAX,
        ensures
            r == self.slot(off + inc),
            self.reaches(off + inc) ==> r < self.cap(),
    {
        self.guard0(off + inc)
    }

    pub fn guard2(&self, off: usize, inc1: usize, inc2: usize) -> (r: usize)
        requires
            self.wf(),
            off + inc1 + inc2 <= usize::MAX,
        ensures
            r == self.slot(off + inc1 + inc2),
            self.reaches(off + inc1 + inc2) ==> r < self.cap(),
    {
        self.guard0(off + inc1 + inc2)
    }

    pub fn get0(&self, off: usize) -> (r: T)
        requires
            self.wf(),
            self.reaches(off as int),
        ensures
            r == self.at(off as int),
    {
        self.deref_get(self.guard0(off))
    }

    pub fn set0(&mut self, val: T, off: usize)
        requires
            old(self).wf(),
            old(self).reaches(off as int),
        ensures
            final(self).wf(),
            final(self)@ == old(self).spec_put(off as int, val),
            final(self).cap() == old(self).cap(),
            final(self).is_wrapping() == old(self).is_wrapping(),
            final(self).spec_page() == old(self).spec_page(),
    {
        let at = self.guard0(off);
        self.deref_set(at, val)
    }

    pub fn get1(&self, off: usize, inc: usize) -> (r: T)
        requires
            self.wf(),
            off + inc <= usize::MAX,
            self.reaches(off + inc),
        ensures
            r == self.at(off + inc),
    {
        self.deref_get(self.guard1(off, inc))
    }

    pub fn set1(&mut self, val: T, off: usize, inc: usize)
        requires
            old(self).wf(),
            off + inc <= usize::MAX,
            old(self).reaches(off + inc),
        ensures
            final(self).wf(),
            final(self)@ == old(self).spec_put(off + inc, val),
            final(self).cap() == old(self).cap(),
            final(self).is_wrapping() == old(self).is_wrapping(),
            final(self).spec_page() == old(self).spec_page(),
    {
        let at = self.guard1(off, inc);
        self.deref_set(at, val)
    }

    pub fn get2(&self, off: usize, inc1: usize, inc2: usize) -> (r: T)
        requires
            self.wf(),
            off + inc1 + inc2 <= usize::MAX,
            self.reaches(off + inc1 + inc2),
        ensures
            r == self.at(off + inc1 + inc2),
    {
        self.deref_get(self.guard2(off, inc1, inc2))
    }

    pub fn set2(&mut self, val: T, off: usize, inc1: usize, inc2: usize)
        requires
            old(self).wf(),
            off + inc1 + inc2 <= usize::MAX,
            old(self).reaches(off + inc1 + inc2),
        ensures
            final(self).wf(),
            final(self)@ == old(self).spec_put(off + inc1 + inc2, val),
            final(self).cap() == old(self).cap(),
            final(self).is_wrapping() == old(self).is_wrapping(),
            final(self).spec_page() == old(self).spec_page(),
    {
        let at = self.guard2(off, inc1, inc2);
        self.deref_set(at, val)
    }
}


/// The lowercase hex digit character for `d` (below 16).
pub open spec fn hex_char(d: int) -> char {
    if d < 10 {
        (48 + d) as char
    } else {
        (87 + d) as char
    }
}

/// `v` in lowercase hex, without leading zeros.
pub open spec fn hex_of(v: nat) -> Seq<char>
    decreases v,
{
    if v < 16 {
        seq![hex_char(v as int)]
    } else {
        hex_of(v / 16).push(hex_char((v % 16) as int))
    }
}

/// A word as `0x` and at least two lowercase hex digits.
pub open spec fn word_text(v: u16) -> Seq<char> {
    seq!['0', 'x'] + if v < 16 {
        seq!['0'] + hex_of(v as nat)
    } else {
        hex_of(v as nat)
    }
}

/// The words' texts, separated by `, `.
pub open spec fn word_items(words: Seq<u16>) -> Seq<char>
    decreases words.len(),
{
    if words.len() == 0 {
        Seq::empty()
    } else if words.len() == 1 {
        word_text(words[0])
    } else {
        word_items(words.drop_last()) + seq![',', ' '] + word_text(words.last())
    }
}

/// The text of one hex digit.
fn hex_digit_text(d: u16) -> (r: &'static str)
    requires
        d < 16,
    ensures
        r@ == seq![hex_char(d as int)],
{
    proof {
        reveal_strlit("0");
        reveal_strlit("1");
        reveal_strlit("2");
        reveal_strlit("3");
        reveal_strlit("4");
        reveal_strlit("5");
        reveal_strlit("6");
        reveal_strlit("7");
        reveal_strlit("8");
        reveal_strlit("9");
        reveal_strlit("a");
        reveal_strlit("b");
        reveal_strlit("c");
        reveal_strlit("d");
        reveal_strlit("e");
        reveal_strlit("f");
    }
    match d {
        0 => "0",
        1 => "1",
        2 => "2",
        3 => "3",
        4 => "4",
        5 => "5",
        6 => "6",
        7 => "7",
        8 => "8",
        9 => "9",
        10 => "a",
        11 => "b",
        12 => "c",
        13 => "d",
        14 => "e",
        _ => "f",
    }
}

/// Appends `v` in lowercase hex.
fn append_hex(out: &mut String, v: u16)
    ensures
        final(out)@ == old(out)@ + hex_of(v as nat),
    decreases v,
{
    if v >= 16 {
        append_hex(out, v / 16);
    }
    out.append(hex_digit_text(v % 16));
    proof {
        if v >= 16 {
            assert(hex_of(v as nat) == hex_of((v / 16) as nat).push(hex_char((v % 16) as int)));
        }
    }
}

impl<SIZE: AllocatorSize, GUARD: Guard> Heap<u16, SIZE, GUARD> {
    /// The first `len` words listed as `[0x.., 0x..]`, each with at least two hex digits.
    pub fn as_string(&self, len: usize) -> (r: String)
        requires
            len <= self.cap(),
        ensures
            r@ == seq!['['] + word_items(self@.subrange(0, len as int)) + seq![']'],
    {
        let words = self.as_bytes(len);
        proof {
            reveal_strlit("[");
            reveal_strlit("]");
        }
        let mut out = String::new();
        out.append("[");
        let mut i: usize = 0;
        while i < words.len()
            invariant
                i <= words.len(),
                out@ == seq!['['] + word_items(words@.subrange(0, i as int)),
            decreases words.len() - i,
        {
            let ghost before = out@;
            if i > 0 {
                out.append(", ");
            }
            let ghost sep = out@;
            out.append("0x");
            let ghost prefix = out@;
            if words[i] < 16 {
                out.append("0");
            }
            let ghost padded = out@;
            append_hex(&mut out, words[i]);
            proof {
                reveal_strlit(", ");
                reveal_strlit("0x");
                reveal_strlit("0");
                assert(", "@ =~= seq![',', ' ']);
                assert("0x"@ =~= seq!['0', 'x']);
                assert("0"@ =~= seq!['0']);
                assert(sep == if i > 0 { before + seq![',', ' '] } else { before });
                assert(prefix =~= sep + seq!['0', 'x']);
                assert(out@ =~= sep + word_text(words@[i as int]));
                let done = words@.subrange(0, i + 1);
                assert(done.drop_last() =~= words@.subrange(0, i as int));
                assert(done.last() == words@[i as int]);
                if i == 0 {
                    assert(done.len() == 1);
                    assert(words@.subrange(0, 0) =~= Seq::<u16>::empty());
                    assert(out@ =~= seq!['['] + word_items(done));
                } else {
                    assert(out@ =~= seq!['['] + word_items(done));
                }
            }
            i = i + 1;
        }
        out.append("]");
        proof {
            assert(words@.subrange(0, i as int) =~= self@.subrange(0, len as int));
        }
        out
    }
}

} // verus!
