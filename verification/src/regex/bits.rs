use vstd::prelude::*;

verus! {

/// A set of bytes, one bit per byte value.
pub struct Bits([u64; 4]);

/// Iterates over the maximal runs of byte values from 1 to 255 that are in the set, or, negated,
/// that are not in it.
pub struct AreaIterator<'a> {
    bits: &'a Bits,
    negation: bool,
    state: usize,
}

/// Iterates over the spans between consecutive byte values of the set.
pub struct EdgeIterator<'a> {
    bits: &'a Bits,
    state: usize,
}

proof fn lemma_bit_and(w: u64, k: u64)
    requires
        k < 64,
    ensures
        (w & (1u64 << k) > 0) == ((w >> k) & 1 == 1),
{
    assert((w & (1u64 << k) > 0) == ((w >> k) & 1 == 1)) by (bit_vector)
        requires
            k < 64,
    ;
}

proof fn lemma_bit_or(w: u64, k: u64, j: u64)
    requires
        k < 64,
        j < 64,
    ensures
        ((w | (1u64 << k)) >> j) & 1 == 1 <==> (j == k || (w >> j) & 1 == 1),
{
    assert(((w | (1u64 << k)) >> j) & 1 == 1 <==> (j == k || (w >> j) & 1 == 1)) by (bit_vector)
        requires
            k < 64,
            j < 64,
    ;
}

impl Bits {
    /// Whether byte value `i` is in the set.
    pub closed spec fn has(&self, i: int) -> bool {
        0 <= i < 256 && (self.0[i / 64] >> ((i % 64) as u64)) & 1 == 1
    }

    /// Whether `i` belongs to the area: in the set, or, negated, not in it.
    pub open spec fn member(&self, negation: bool, i: int) -> bool {
        self.has(i) != negation
    }

    pub open spec fn any_spec(&self) -> bool {
        exists|i: int| 0 <= i < 256 && self.has(i)
    }

    pub fn new() -> (r: Self)
        ensures
            forall|i: int| !r.has(i),
    {
        let r = Bits([0; 4]);
        proof {
            assert forall|i: int| !r.has(i) by {
                if 0 <= i < 256 {
                    let k = (i % 64) as u64;
                    assert((0u64 >> k) & 1 == 0) by (bit_vector);
                }
            }
        }
        r
    }

    pub fn get(&self, idx: u8) -> (r: bool)
        ensures
            r == self.has(idx as int),
    {
        let w = self.0[idx as usize / 64];
        let k = idx as u64 % 64;
        proof {
            lemma_bit_and(w, k);
        }
        w & (1u64 << k) > 0
    }

    pub fn set(&mut self, idx: u8)
        ensures
            forall|i: int| final(self).has(i) == (old(self).has(i) || i == idx),
    {
        let j = idx as usize / 64;
        let k = idx as u64 % 64;
        let w = self.0[j];
        self.0[j] = w | (1u64 << k);
        proof {
            assert forall|i: int| self.has(i) == (old(self).has(i) || i == idx) by {
                if 0 <= i < 256 {
                    let ji = i / 64;
                    let ki = (i % 64) as u64;
                    if ji == j {
                        lemma_bit_or(w, k, ki);
                    }
                }
            }
        }
    }

    /// Whether any byte value is in the set.
    pub fn any(&self) -> (r: bool)
        ensures
            r == self.any_spec(),
    {
        let mut i: u16 = 0;
        while i < 256
            invariant
                i <= 256,
                forall|k: int| 0 <= k < i ==> !self.has(k),
            decreases 256 - i,
        {
            if self.get(i as u8) {
                return true;
            }
            i = i + 1;
        }
        false
    }

    /// Iterates over the runs of members from byte value 1 up.
    pub fn area<'a>(&'a self, negation: bool) -> (r: AreaIterator<'a>)
        ensures
            r.bits_spec() == *self,
            r.negation_spec() == negation,
            r.state_spec() == 0,
    {
        AreaIterator { bits: self, negation: negation, state: 0 }
    }

    /// Iterates over spans, starting at the lowest byte value from 1 up that is in the set.
    pub fn edge<'a>(&'a self) -> (r: EdgeIterator<'a>)
        ensures
            r.bits_spec() == *self,
            edge_first(*self, r.state_spec() as int),
    {
        let mut idx: u16 = 1;
        while idx <= 255
            invariant
                1 <= idx <= 256,
                forall|k: int| 1 <= k < idx ==> !self.has(k),
            decreases 256 - idx,
        {
            if self.get(idx as u8) {
                return EdgeIterator { bits: self, state: idx as usize };
            }
            idx = idx + 1;
        }
        EdgeIterator { bits: self, state: 256 }
    }
}

/// Where an edge iteration starts: at the lowest byte value from 1 up in the set, or past 255
/// where there is none.
pub open spec fn edge_first(bits: Bits, s: int) -> bool {
    &&& 1 <= s <= 256
    &&& s <= 255 ==> bits.has(s)
    &&& forall|i: int| 1 <= i < s && i <= 255 ==> !bits.has(i)
}

/// The lower end of the byte values that an area iteration visits.
pub open spec fn area_start(s: int) -> int {
    if s < 1 {
        1
    } else {
        s
    }
}

/// One call of an area iteration from state `s`: the next run of members at or after the state,
/// both ends inclusive, and the state after it; or `None` where no member is left.
pub open spec fn area_step(bits: Bits, neg: bool, s: int, r: Option<(u8, u8)>, s2: int) -> bool {
    match r {
        None => {
            &&& forall|i: int| area_start(s) <= i <= 255 ==> !bits.member(neg, i)
            &&& s2 == if s <= 255 { 255 } else { s }
        },
        Some((a, b)) => {
            &&& area_start(s) <= a <= b <= 255
            &&& forall|i: int| area_start(s) <= i < a ==> !bits.member(neg, i)
            &&& forall|i: int| a <= i <= b ==> bits.member(neg, i)
            &&& if b == 255 {
                s2 == 256
            } else {
                !bits.member(neg, b + 1) && s2 == b + 1
            }
        },
    }
}

impl<'a> AreaIterator<'a> {
    pub closed spec fn bits_spec(&self) -> Bits {
        *self.bits
    }

    pub closed spec fn negation_spec(&self) -> bool {
        self.negation
    }

    pub closed spec fn state_spec(&self) -> nat {
        self.state as nat
    }

    /// The next run of members at or after the state: `(first, last)`, both inclusive.
    pub fn next(&mut self) -> (r: Option<(u8, u8)>)
        requires
            old(self).state_spec() <= 256,
        ensures
            final(self).bits_spec() == old(self).bits_spec(),
            final(self).negation_spec() == old(self).negation_spec(),
            final(self).state_spec() <= 256,
            area_step(
                old(self).bits_spec(),
                old(self).negation_spec(),
                old(self).state_spec() as int,
                r,
                final(self).state_spec() as int,
            ),
    {
        let mut min: u8 = 0;
        let mut max: u8 = 0;
        if self.state > 255 {
            return None;
        }
        let start = self.state as u16;
        let mut idx: u16 = start;
        while idx <= 255
            invariant
                start <= 255,
                start == old(self).state_spec(),
                start <= idx <= 256,
                self.bits == old(self).bits,
                self.negation == old(self).negation,
                self.state <= 255,
                min == 0 ==> forall|i: int| area_start(start as int) <= i < idx ==> !self.bits.member(self.negation, i),
                min > 0 ==> {
                    &&& area_start(start as int) <= min <= max
                    &&& max + 1 == idx
                    &&& forall|i: int| area_start(start as int) <= i < min ==> !self.bits.member(self.negation, i)
                    &&& forall|i: int| min <= i <= max ==> self.bits.member(self.negation, i)
                },
                idx > start ==> self.state == idx - 1,
                idx == start ==> self.state == start,
            decreases 256 - idx,
        {
            self.state = idx as usize;
            if self.bits.get(idx as u8) != self.negation {
                if min == 0 {
                    min = idx as u8;
                    max = idx as u8;
                } else {
                    max = idx as u8;
                }
            } else if min > 0 {
                return Some((min, max));
            }
            idx = idx + 1;
        }
        if min > 0 {
            self.state = 256;
            return Some((min, max));
        }
        None
    }
}

/// One call of an edge iteration from state `s`: the span from the state up to just before the
/// next byte value in the set, or up to 255 where 255 is that value, and the state after it; or
/// `None` where no value is left after the state.
pub open spec fn edge_step(bits: Bits, s: int, r: Option<(u8, u8)>, s2: int) -> bool {
    if s > 255 {
        r == None::<(u8, u8)> && s2 == s
    } else {
        match r {
            Some((a, b)) => {
                &&& a == s
                &&& forall|i: int| s < i <= b && i < 255 ==> !bits.has(i)
                &&& if b == 255 {
                    s2 == 256 && bits.has(255)
                } else {
                    s <= b < 254 && bits.has(b + 1) && s2 == b + 1
                }
            },
            None => {
                &&& forall|i: int| s < i <= 255 ==> !bits.has(i)
                &&& s2 == if s + 1 < 255 { 254 } else { s }
            },
        }
    }
}

/// Where the last span of an edge iteration ends: the value after it, or 255.
pub open spec fn span_end(b: int) -> int {
    if b < 255 {
        b + 1
    } else {
        255
    }
}

impl<'a> EdgeIterator<'a> {
    pub closed spec fn bits_spec(&self) -> Bits {
        *self.bits
    }

    pub closed spec fn state_spec(&self) -> nat {
        self.state as nat
    }

    /// The span from the state up to just before the next byte value in the set.
    pub fn next(&mut self) -> (r: Option<(u8, u8)>)
        requires
            old(self).state_spec() != 255,
        ensures
            final(self).bits_spec() == old(self).bits_spec(),
            edge_step(old(self).bits_spec(), old(self).state_spec() as int, r, final(self).state_spec() as int),
    {
        if self.state > 255 {
            return None;
        }
        let state = self.state as u16;
        let mut idx: u16 = state + 1;
        while idx < 255
            invariant
                state < 255,
                state == old(self).state_spec(),
                state + 1 <= idx <= 255 || (idx == state + 1),
                idx <= 255,
                self.bits == old(self).bits,
                forall|i: int| state < i < idx ==> !self.bits.has(i),
                idx > state + 1 ==> self.state == idx - 1,
                idx == state + 1 ==> self.state == state,
            decreases 255 - idx,
        {
            self.state = idx as usize;
            if self.bits.get(idx as u8) {
                return Some((state as u8, (idx - 1) as u8));
            }
            idx = idx + 1;
        }
        if self.bits.get(255) {
            self.state = 256;
            return Some((state as u8, 255));
        }
        None
    }
}

} // verus!
