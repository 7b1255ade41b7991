use vstd::prelude::*;

verus! {

/// A task: its slot in the task table and its identifier.
#[derive(Clone, Copy)]
pub struct IORingTaskRef {
    tid: u32,
    tidx: usize,
}

/// A completer: its slot in the completer table and its identifier.
pub struct IORingCompleterRef {
    cid: u32,
    cidx: usize,
}

impl IORingTaskRef {
    pub closed spec fn spec_tid(&self) -> u32 {
        self.tid
    }

    pub closed spec fn spec_tidx(&self) -> usize {
        self.tidx
    }

    pub fn new(tidx: usize, tid: u32) -> (r: Self)
        ensures
            r.spec_tid() == tid,
            r.spec_tidx() == tidx,
    {
        IORingTaskRef { tid, tidx }
    }

    pub fn tid(&self) -> (r: u32)
        ensures
            r == self.spec_tid(),
    {
        self.tid
    }

    pub fn tidx(&self) -> (r: usize)
        ensures
            r == self.spec_tidx(),
    {
        self.tidx
    }
}

/// The word that carries a completer through the ring: the identifier in the high half, the low
/// half of the slot in the low half.
pub open spec fn packed(cid: u32, cidx: usize) -> u64 {
    ((cid as u64) << 32u64) | ((cidx as u64) & 0xffffffffu64)
}

impl IORingCompleterRef {
    pub closed spec fn spec_cid(&self) -> u32 {
        self.cid
    }

    pub closed spec fn spec_cidx(&self) -> usize {
        self.cidx
    }

    pub fn new(cidx: usize, cid: u32) -> (r: Self)
        ensures
            r.spec_cid() == cid,
            r.spec_cidx() == cidx,
    {
        IORingCompleterRef { cid, cidx }
    }

    /// The completer carried by a word.
    pub fn decode(val: u64) -> (r: Self)
        ensures
            r.spec_cid() == (val >> 32u64) as u32,
            r.spec_cidx() == (val & 0xffffffffu64) as usize,
            packed(r.spec_cid(), r.spec_cidx()) == val,
    {
        let cid = ((val >> 32u64) & 0xffffffffu64) as u32;
        let low = val & 0xffffffffu64;
        let cidx = low as usize;
        proof {
            assert(low <= 0xffffffffu64) by (bit_vector)
                requires
                    low == val & 0xffffffffu64,
            ;
            assert(cidx as u64 == low);
            assert(((val >> 32u64) & 0xffffffffu64) == val >> 32u64) by (bit_vector);
            assert((((val >> 32u64) as u32 as u64) << 32u64) | ((val & 0xffffffffu64) & 0xffffffffu64) == val)
                by (bit_vector);
        }
        IORingCompleterRef { cid, cidx }
    }

    pub fn cid(&self) -> (r: u32)
        ensures
            r == self.spec_cid(),
    {
        self.cid
    }

    pub fn cidx(&self) -> (r: usize)
        ensures
            r == self.spec_cidx(),
    {
        self.cidx
    }

    /// The word that carries this completer.
    pub fn encode(&self) -> (r: u64)
        ensures
            r == packed(self.spec_cid(), self.spec_cidx()),
    {
        let hi = ((self.cid as u64) & 0xffffffffu64) << 32u64;
        let low = (self.cidx as u64) & 0xffffffffu64;
        proof {
            let c = self.cid;
            assert(((c as u64) & 0xffffffffu64) == c as u64) by (bit_vector);
        }
        hi | low
    }
}

/// Decoding the word of a completer whose slot fits in 32 bits gives the completer back.
pub proof fn lemma_decode_encode(cid: u32, cidx: usize)
    requires
        cidx <= 0xffffffff,
    ensures
        (packed(cid, cidx) >> 32u64) as u32 == cid,
        (packed(cid, cidx) & 0xffffffffu64) as usize == cidx,
{
    let x = cidx as u64;
    assert(((((cid as u64) << 32u64) | (x & 0xffffffffu64)) >> 32u64) as u32 == cid) by (bit_vector);
    assert((((cid as u64) << 32u64) | (x & 0xffffffffu64)) & 0xffffffffu64 == x) by (bit_vector)
        requires
            x <= 0xffffffff,
    ;
}

} // verus!
